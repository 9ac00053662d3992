use store::daemon::{
    get_secondaries, handle_client_request, relay_reply, route, Handled, Location, PeerDaemon, Pool,
    RequestError, RouteError, StorageDaemon,
};
use store::storage::mem_store::MemStore;
use store::storage::{StorageBackend, StorageError};
use store::storage_map::{Algorithm, Bucket, Node, NodeEntry, PickMode, StorageMap};
use store::wire::{encode_request, Operation, ParseError, Request};
use store::{DeviceId, GroupId, ObjectId, PoolName};

const A: DeviceId = DeviceId([0xaa; 16]);
const B: DeviceId = DeviceId([0xbb; 16]);
const C: DeviceId = DeviceId([0xcc; 16]);

fn single(device: DeviceId) -> StorageMap {
    StorageMap { generation: 1, groups: 128, replicas: 1, map_root: Node::Device(device) }
}

/// A map that names the given devices in order: the first is the primary.
fn ordered(devices: &[DeviceId]) -> StorageMap {
    StorageMap {
        generation: 1,
        groups: 16,
        replicas: devices.len() as u32,
        map_root: Node::Bucket(Bucket {
            id: 1,
            algorithm: Algorithm::Fallback,
            pick_mode: PickMode::NeverRepeat,
            children: devices
                .iter()
                .map(|d| NodeEntry { weight: 1, node: Node::Device(*d) })
                .collect(),
        }),
    }
}

fn pool() -> PoolName {
    PoolName("default".to_owned())
}

fn object() -> ObjectId {
    ObjectId(b"greeting".to_vec())
}

fn request(counter: u32, operation: Operation) -> Vec<u8> {
    encode_request(&Request { counter, pool: pool(), operation })
}

fn location(found: Result<Location, RouteError>) -> String {
    format!("{:?}", found)
}

#[test]
fn normal_pool_serves_at_the_primary_only() {
    let pool = Pool::Normal(single(A));
    assert_eq!(
        location(route(&pool, &A, &vec![], &object())),
        location(Ok(Location::HereOrFallback(None, vec![])))
    );
    assert_eq!(route(&pool, &B, &vec![A], &object()).err(), Some(RouteError::WrongDaemon));
}

#[test]
fn secondaries_follow_the_primary() {
    let map = ordered(&[A, B, C]);
    let pool = Pool::Normal(ordered(&[A, B, C]));
    assert_eq!(
        location(route(&pool, &A, &vec![C, B], &object())),
        location(Ok(Location::HereOrFallback(None, vec![B, C])))
    );
    // A secondary that the daemon cannot reach
    assert_eq!(route(&pool, &A, &vec![B], &object()).err(), Some(RouteError::NoAddress));
    // The secondaries do not serve clients
    assert_eq!(route(&pool, &B, &vec![A, C], &object()).err(), Some(RouteError::WrongDaemon));
    assert_eq!(get_secondaries(&map, &vec![B, C], &GroupId(3)), Ok(vec![B, C]));
    assert_eq!(get_secondaries(&map, &vec![C], &GroupId(3)), Err(RouteError::NoAddress));
    assert_eq!(get_secondaries(&single(A), &vec![], &GroupId(3)), Ok(vec![]));
}

#[test]
fn transition_prepare_forwards_to_the_current_primary() {
    let pool = Pool::TransitionPrepare { current: single(A), next: single(B) };
    // The old location keeps serving
    assert_eq!(
        location(route(&pool, &A, &vec![B], &object())),
        location(Ok(Location::HereOrFallback(None, vec![])))
    );
    // The new location forwards to it
    assert_eq!(
        location(route(&pool, &B, &vec![A], &object())),
        location(Ok(Location::Forward(A)))
    );
    // ... if it knows where it is
    assert_eq!(route(&pool, &B, &vec![C], &object()).err(), Some(RouteError::NoAddress));
    // Anybody else turns the request down
    assert_eq!(route(&pool, &C, &vec![A, B], &object()).err(), Some(RouteError::WrongDaemon));
}

#[test]
fn transition_serves_at_the_new_primary_with_fallback() {
    let pool = Pool::Transition { previous: single(A), current: single(B) };
    assert_eq!(
        location(route(&pool, &B, &vec![A], &object())),
        location(Ok(Location::HereOrFallback(Some(A), vec![])))
    );
    assert_eq!(route(&pool, &B, &vec![], &object()).err(), Some(RouteError::NoAddress));
    assert_eq!(route(&pool, &A, &vec![B], &object()).err(), Some(RouteError::WrongDaemon));
    // An object that stays where it was has nowhere to fall back on
    let pool = Pool::Transition { previous: single(B), current: single(B) };
    assert_eq!(
        location(route(&pool, &B, &vec![], &object())),
        location(Ok(Location::HereOrFallback(None, vec![])))
    );
}

#[test]
fn pool_goes_through_the_change_step_by_step() {
    let pool = Pool::Normal(single(A));
    assert!(matches!(pool.start_transition(), Err(Pool::Normal(_))));
    let pool = Pool::Normal(single(A));
    assert!(matches!(pool.finish_transition(), Err(Pool::Normal(_))));
    let pool = Pool::Normal(single(A)).prepare_transition(single(B)).ok().unwrap();
    match &pool {
        Pool::TransitionPrepare { current, next } => {
            assert_eq!(current.map_root_device(), Some(A));
            assert_eq!(next.map_root_device(), Some(B));
        }
        _ => panic!("not prepared"),
    }
    let pool = match pool.prepare_transition(single(C)) {
        Err(pool) => pool,
        Ok(_) => panic!("prepared twice"),
    };
    let pool = pool.start_transition().ok().unwrap();
    match &pool {
        Pool::Transition { previous, current } => {
            assert_eq!(previous.map_root_device(), Some(A));
            assert_eq!(current.map_root_device(), Some(B));
        }
        _ => panic!("not in transition"),
    }
    let pool = pool.finish_transition().ok().unwrap();
    match &pool {
        Pool::Normal(map) => assert_eq!(map.map_root_device(), Some(B)),
        _ => panic!("not back to normal"),
    }
}

trait RootDevice {
    fn map_root_device(&self) -> Option<DeviceId>;
}

impl RootDevice for StorageMap {
    fn map_root_device(&self) -> Option<DeviceId> {
        match &self.map_root {
            Node::Device(id) => Some(*id),
            Node::Bucket(_) => None,
        }
    }
}

fn daemon(this: DeviceId, pool_state: Pool, peers: &[DeviceId]) -> StorageDaemon {
    let mut daemon = StorageDaemon::new(this);
    for peer in peers {
        daemon.add_storage_daemon(*peer);
    }
    assert!(daemon.set_pool(pool(), pool_state).is_none());
    daemon
}

fn reply(handled: Result<Handled, RequestError>) -> Vec<u8> {
    match handled {
        Ok(Handled::Reply { reply, pass_on }) => {
            assert!(pass_on.is_empty());
            reply
        }
        other => panic!("no reply: {:?}", other),
    }
}

#[test]
fn write_part_read() {
    let daemon = daemon(A, Pool::Normal(single(A)), &[]);
    let mut store = MemStore::new();
    let written = handle_client_request(
        &daemon,
        &mut store,
        &request(1, Operation::WriteObject { object_id: object(), data: b"hello world!".to_vec() }),
    );
    assert_eq!(reply(written), [0, 0, 0, 1]);
    let read = handle_client_request(
        &daemon,
        &mut store,
        &request(2, Operation::ReadPart { object_id: object(), offset: 4, len: 20 }),
    );
    assert_eq!(reply(read), b"\0\0\0\x02\x01o world!");
    let written = handle_client_request(
        &daemon,
        &mut store,
        &request(3, Operation::WritePart { object_id: object(), offset: 3, data: b"xxx".to_vec() }),
    );
    assert_eq!(reply(written), [0, 0, 0, 3]);
    let written = handle_client_request(
        &daemon,
        &mut store,
        &request(4, Operation::WritePart { object_id: object(), offset: 10, data: b"!!!".to_vec() }),
    );
    assert_eq!(reply(written), [0, 0, 0, 4]);
    let read = handle_client_request(
        &daemon,
        &mut store,
        &request(5, Operation::ReadPart { object_id: object(), offset: 4, len: 20 }),
    );
    assert_eq!(reply(read), b"\0\0\0\x05\x01xxworl!!!");
    let read = handle_client_request(
        &daemon,
        &mut store,
        &request(6, Operation::ReadObject { object_id: object() }),
    );
    assert_eq!(reply(read), b"\0\0\0\x06\x01helxxxworl!!!");
}

#[test]
fn write_read_delete_through_the_protocol() {
    let daemon = daemon(A, Pool::Normal(single(A)), &[]);
    let mut store = MemStore::new();
    let read = handle_client_request(
        &daemon,
        &mut store,
        &request(1, Operation::ReadObject { object_id: object() }),
    );
    assert_eq!(reply(read), [0, 0, 0, 1, 0]);
    let written = handle_client_request(
        &daemon,
        &mut store,
        &request(2, Operation::WriteObject { object_id: object(), data: b"d".to_vec() }),
    );
    assert_eq!(reply(written), [0, 0, 0, 2]);
    let read = handle_client_request(
        &daemon,
        &mut store,
        &request(3, Operation::ReadObject { object_id: object() }),
    );
    assert_eq!(reply(read), [0, 0, 0, 3, 1, b'd']);
    let deleted = handle_client_request(
        &daemon,
        &mut store,
        &request(4, Operation::DeleteObject { object_id: object() }),
    );
    assert_eq!(reply(deleted), [0, 0, 0, 4]);
    let read = handle_client_request(
        &daemon,
        &mut store,
        &request(5, Operation::ReadObject { object_id: object() }),
    );
    assert_eq!(reply(read), [0, 0, 0, 5, 0]);
    let read = handle_client_request(
        &daemon,
        &mut store,
        &request(6, Operation::ReadPart { object_id: object(), offset: 0, len: 1 }),
    );
    assert_eq!(reply(read), [0, 0, 0, 6, 0]);
    // Deleting what is not there succeeds
    let deleted = handle_client_request(
        &daemon,
        &mut store,
        &request(7, Operation::DeleteObject { object_id: object() }),
    );
    assert_eq!(reply(deleted), [0, 0, 0, 7]);
}

#[test]
fn write_past_end_fills_with_zeros() {
    let daemon = daemon(A, Pool::Normal(single(A)), &[]);
    let mut store = MemStore::new();
    let written = handle_client_request(
        &daemon,
        &mut store,
        &request(1, Operation::WritePart { object_id: object(), offset: 5, data: b"hi".to_vec() }),
    );
    assert_eq!(reply(written), [0, 0, 0, 1]);
    let read = handle_client_request(
        &daemon,
        &mut store,
        &request(2, Operation::ReadObject { object_id: object() }),
    );
    assert_eq!(reply(read), b"\0\0\0\x02\x01\0\0\0\0\0hi");
}

#[test]
fn requests_that_are_not_served() {
    let daemon = daemon(A, Pool::Normal(single(B)), &[B]);
    let mut store = MemStore::new();
    // Not a request
    let handled = handle_client_request(&daemon, &mut store, &[1, 2, 3]);
    assert!(matches!(handled, Err(RequestError::Invalid(ParseError::Truncated))));
    // A pool that this daemon does not have
    let bytes = encode_request(&Request {
        counter: 1,
        pool: PoolName("other".to_owned()),
        operation: Operation::ReadObject { object_id: object() },
    });
    let handled = handle_client_request(&daemon, &mut store, &bytes);
    assert!(matches!(handled, Err(RequestError::Misrouted(RouteError::UnknownPool))));
    // An object that lives elsewhere
    let handled = handle_client_request(
        &daemon,
        &mut store,
        &request(1, Operation::WriteObject { object_id: object(), data: b"d".to_vec() }),
    );
    assert!(matches!(handled, Err(RequestError::Misrouted(RouteError::WrongDaemon))));
    assert_eq!(store.read_object(&pool(), &object()).unwrap(), None);
}

#[test]
fn transition_forwarding() {
    // A holds the object; B is to hold it after the change.
    let old = daemon(A, Pool::TransitionPrepare { current: single(A), next: single(B) }, &[B]);
    let new = daemon(B, Pool::TransitionPrepare { current: single(A), next: single(B) }, &[A]);
    let mut store_a = MemStore::new();
    let mut store_b = MemStore::new();
    store_a.write_object(&pool(), &object(), b"kept at A").unwrap();

    // The client asks B under its counter 77.
    let asked = request(77, Operation::ReadObject { object_id: object() });
    let (peer, client_counter) = match handle_client_request(&new, &mut store_b, &asked) {
        Ok(Handled::Forward { peer, client_counter }) => (peer, client_counter),
        other => panic!("not forwarded: {:?}", other),
    };
    assert_eq!(peer, A);
    assert_eq!(client_counter, 77);

    // B sends the request on under a counter of its own, and waits.
    let mut to_a: PeerDaemon<&str> = PeerDaemon::new();
    let forwarded = to_a.begin_forward(&asked, "client").ok().unwrap();
    assert_eq!(forwarded.counter, 0);
    assert_eq!(&forwarded.request[4..], &asked[4..]);
    assert_eq!(&forwarded.request[..4], &[0, 0, 0, 0]);

    // A serves it.
    let from_a = reply(handle_client_request(&old, &mut store_a, &forwarded.request));
    assert_eq!(from_a, b"\0\0\0\0\x01kept at A");

    // B finds who waits, and sends the reply on under the client's counter.
    assert_eq!(to_a.take_reply(&from_a), Some("client"));
    let relayed = relay_reply(&from_a, client_counter).unwrap();

    // The client gets what it would have got from A.
    let direct = reply(handle_client_request(&old, &mut store_a, &asked));
    assert_eq!(relayed, direct);
    assert_eq!(relayed, b"\0\0\0\x4d\x01kept at A");

    // A second reply from A finds nobody.
    assert_eq!(to_a.take_reply(&from_a), None);
}

#[test]
fn reads_fall_back_during_transition() {
    let new = daemon(B, Pool::Transition { previous: single(A), current: single(B) }, &[A]);
    let mut store_b = MemStore::new();
    // Not migrated yet: the read goes to the previous location.
    let asked = request(5, Operation::ReadObject { object_id: object() });
    match handle_client_request(&new, &mut store_b, &asked) {
        Ok(Handled::Forward { peer, client_counter }) => {
            assert_eq!(peer, A);
            assert_eq!(client_counter, 5);
        }
        other => panic!("not forwarded: {:?}", other),
    }
    // Writes are served here.
    let written = handle_client_request(
        &new,
        &mut store_b,
        &request(6, Operation::WriteObject { object_id: object(), data: b"new".to_vec() }),
    );
    assert_eq!(reply(written), [0, 0, 0, 6]);
    // And so are reads of what is here.
    assert_eq!(reply(handle_client_request(&new, &mut store_b, &asked)), b"\0\0\0\x05\x01new");
    // Deletes are passed on to the previous location.
    match handle_client_request(
        &new,
        &mut store_b,
        &request(7, Operation::DeleteObject { object_id: object() }),
    ) {
        Ok(Handled::Reply { reply, pass_on }) => {
            assert_eq!(reply, [0, 0, 0, 7]);
            assert_eq!(pass_on, vec![A]);
        }
        other => panic!("not served: {:?}", other),
    }
}

#[test]
fn writes_are_passed_on_to_the_secondaries() {
    let first = daemon(A, Pool::Normal(ordered(&[A, B, C])), &[B, C]);
    let mut store = MemStore::new();
    match handle_client_request(
        &first,
        &mut store,
        &request(1, Operation::WriteObject { object_id: object(), data: b"d".to_vec() }),
    ) {
        Ok(Handled::Reply { reply, pass_on }) => {
            assert_eq!(reply, [0, 0, 0, 1]);
            assert_eq!(pass_on, vec![B, C]);
        }
        other => panic!("not served: {:?}", other),
    }
    match handle_client_request(
        &first,
        &mut store,
        &request(2, Operation::ReadObject { object_id: object() }),
    ) {
        Ok(Handled::Reply { reply, pass_on }) => {
            assert_eq!(reply, [0, 0, 0, 2, 1, b'd']);
            assert!(pass_on.is_empty());
        }
        other => panic!("not served: {:?}", other),
    }
}

struct Broken;

impl StorageBackend for Broken {
    fn read_object(&self, _: &PoolName, _: &ObjectId) -> Result<Option<Vec<u8>>, StorageError> {
        Err(StorageError("broken".to_owned()))
    }

    fn read_part(
        &self,
        _: &PoolName,
        _: &ObjectId,
        _: usize,
        _: usize,
    ) -> Result<Option<Vec<u8>>, StorageError> {
        Err(StorageError("broken".to_owned()))
    }

    fn write_object(&mut self, _: &PoolName, _: &ObjectId, _: &[u8]) -> Result<(), StorageError> {
        Err(StorageError("broken".to_owned()))
    }

    fn write_part(&mut self, _: &PoolName, _: &ObjectId, _: usize, _: &[u8]) -> Result<(), StorageError> {
        Err(StorageError("broken".to_owned()))
    }

    fn delete_object(&mut self, _: &PoolName, _: &ObjectId) -> Result<(), StorageError> {
        Err(StorageError("broken".to_owned()))
    }
}

#[test]
fn backend_failures_get_no_reply() {
    let daemon = daemon(A, Pool::Normal(single(A)), &[]);
    let mut store = Broken;
    for operation in [
        Operation::ReadObject { object_id: object() },
        Operation::ReadPart { object_id: object(), offset: 0, len: 1 },
        Operation::WriteObject { object_id: object(), data: vec![1] },
        Operation::WritePart { object_id: object(), offset: 0, data: vec![1] },
        Operation::DeleteObject { object_id: object() },
    ] {
        let handled = handle_client_request(&daemon, &mut store, &request(1, operation));
        assert!(matches!(handled, Err(RequestError::Storage(_))));
    }
}

#[test]
fn forwarded_requests_wait_by_counter() {
    let mut peer: PeerDaemon<u8> = PeerDaemon::new();
    let first = peer.begin_forward(&[9, 9, 9, 9, 1, 2], 10).ok().unwrap();
    let second = peer.begin_forward(&[8, 8, 8, 8, 3], 20).ok().unwrap();
    assert_eq!((first.counter, second.counter), (0, 1));
    assert_eq!(first.request, [0, 0, 0, 0, 1, 2]);
    assert_eq!(second.request, [0, 0, 0, 1, 3]);
    // Too short to be a request
    assert_eq!(peer.begin_forward(&[1, 2, 3], 30).err(), Some(30));
    // Replies come in any order
    assert_eq!(peer.take_reply(&[0, 0, 0, 1, 0xff]), Some(20));
    assert_eq!(peer.take_reply(&[0, 0, 0, 1, 0xff]), None);
    assert_eq!(peer.take_reply(&[0, 0]), None);
    assert_eq!(peer.take_reply(&[0, 0, 0, 7]), None);
    // A request that timed out is let go of; its reply finds nobody
    assert_eq!(peer.close(0), Some(10));
    assert_eq!(peer.close(0), None);
    assert_eq!(peer.take_reply(&[0, 0, 0, 0]), None);
    // The counters go on
    assert_eq!(peer.begin_forward(&[0, 0, 0, 0], 40).ok().unwrap().counter, 2);
}
