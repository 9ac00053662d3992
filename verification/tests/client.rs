use store::client::{ClientError, ClientInner, PeerAddress};
use store::daemon::{handle_client_request, Handled, Pool, StorageDaemon};
use store::storage::mem_store::MemStore;
use store::storage_map::{Algorithm, Bucket, Node, NodeEntry, PickMode, StorageMap};
use store::wire::{encode_request, Operation, Request};
use store::{DeviceId, ObjectId, PoolName};

const A: DeviceId = DeviceId([0xaa; 16]);
const B: DeviceId = DeviceId([0xbb; 16]);

fn address(last: u8, port: u16) -> PeerAddress {
    let mut ip = [0; 16];
    ip[10] = 0xff;
    ip[11] = 0xff;
    ip[12] = 127;
    ip[15] = last;
    PeerAddress { ip, port }
}

fn single(device: DeviceId) -> StorageMap {
    StorageMap { generation: 1, groups: 128, replicas: 1, map_root: Node::Device(device) }
}

fn read(name: &[u8]) -> Operation {
    Operation::ReadObject { object_id: ObjectId(name.to_vec()) }
}

fn client() -> ClientInner<&'static str> {
    let mut client = ClientInner::new(PoolName("default".to_owned()), single(A));
    assert!(client.add_storage_daemon(A, address(1, 7000)));
    assert!(client.add_storage_daemon(B, address(2, 7000)));
    client
}

#[test]
fn requests_get_the_next_counter_of_their_daemon() {
    let mut client = client();
    let first = client.begin_request(read(b"one"), "first").ok().unwrap();
    let second = client.begin_request(read(b"two"), "second").ok().unwrap();
    assert_eq!(first.counter, 0);
    assert_eq!(second.counter, 1);
    assert_eq!(first.address.port, 7000);
    assert_eq!(first.address.ip, address(1, 7000).ip);
    assert_eq!(
        second.request,
        encode_request(&Request {
            counter: 1,
            pool: PoolName("default".to_owned()),
            operation: read(b"two"),
        })
    );
    assert_eq!(
        first.request,
        [
            0, 0, 0, 0, 0, 0, 0, 7, b'd', b'e', b'f', b'a', b'u', b'l', b't', 1, 0, 0, 0, 3, b'o',
            b'n', b'e'
        ]
    );
}

#[test]
fn replies_find_who_waits_once() {
    let mut client = client();
    let first = client.begin_request(read(b"one"), "first").ok().unwrap();
    let second = client.begin_request(read(b"two"), "second").ok().unwrap();
    // Replies may come out of order
    assert_eq!(client.receive(&second.address, &[0, 0, 0, 1, 0]), Some("second"));
    // A duplicate reply finds nobody
    assert_eq!(client.receive(&second.address, &[0, 0, 0, 1, 0]), None);
    assert_eq!(client.receive(&first.address, &[0, 0, 0, 0, 1, b'x']), Some("first"));
    assert_eq!(client.receive(&first.address, &[0, 0, 0, 0, 1, b'x']), None);
}

#[test]
fn replies_that_nobody_waits_for_are_dropped() {
    let mut client = client();
    let sent = client.begin_request(read(b"one"), "first").ok().unwrap();
    // Too short
    assert_eq!(client.receive(&sent.address, &[0, 0, 0]), None);
    // Another counter
    assert_eq!(client.receive(&sent.address, &[0, 0, 0, 9]), None);
    // Another daemon, another port, an address that is not known
    assert_eq!(client.receive(&address(2, 7000), &[0, 0, 0, 0]), None);
    assert_eq!(client.receive(&address(1, 7001), &[0, 0, 0, 0]), None);
    assert_eq!(client.receive(&address(3, 7000), &[0, 0, 0, 0]), None);
    // The one who waits is still found
    assert_eq!(client.receive(&sent.address, &[0, 0, 0, 0]), Some("first"));
}

#[test]
fn cancelled_requests_get_no_reply() {
    let mut client = client();
    let sent = client.begin_request(read(b"one"), "first").ok().unwrap();
    assert_eq!(client.cancel(&sent.address, sent.counter), Some("first"));
    assert_eq!(client.cancel(&sent.address, sent.counter), None);
    assert_eq!(client.receive(&sent.address, &[0, 0, 0, 0]), None);
    // The counter is not given out again
    assert_eq!(client.begin_request(read(b"two"), "second").ok().unwrap().counter, 1);
}

#[test]
fn requests_that_cannot_go_out() {
    // The map names a daemon that the client does not know.
    let mut client: ClientInner<&str> =
        ClientInner::new(PoolName("default".to_owned()), single(A));
    assert!(client.add_storage_daemon(B, address(2, 7000)));
    let refused = client.begin_request(read(b"one"), "first").err().unwrap();
    assert_eq!(refused.error, ClientError::UnknownDevice);
    assert_eq!(refused.waiter, "first");

}

#[test]
fn a_new_map_sends_requests_elsewhere() {
    let mut client = client();
    let sent = client.begin_request(read(b"one"), "first").ok().unwrap();
    assert_eq!(sent.address.ip, address(1, 7000).ip);
    let old = client.set_map(single(B));
    assert!(matches!(old.map_root, Node::Device(id) if id == A));
    let sent = client.begin_request(read(b"one"), "second").ok().unwrap();
    assert_eq!(sent.address.ip, address(2, 7000).ip);
    assert_eq!(sent.counter, 0);
    // The reply to the first request is still waited for
    assert_eq!(client.receive(&address(1, 7000), &[0, 0, 0, 0]), Some("first"));
}

#[test]
fn retransmit() {
    let mut client = client();
    let mut daemon = StorageDaemon::new(A);
    daemon.set_pool(PoolName("default".to_owned()), Pool::Normal(single(A)));
    let mut store = MemStore::new();
    let serve = |store: &mut MemStore, datagram: &[u8]| match handle_client_request(
        &daemon, store, datagram,
    ) {
        Ok(Handled::Reply { reply, .. }) => reply,
        other => panic!("no reply: {:?}", other),
    };

    let sent = client
        .begin_request(
            Operation::WriteObject { object_id: ObjectId(b"o".to_vec()), data: b"d".to_vec() },
            "writer",
        )
        .ok()
        .unwrap();
    // The first datagram is lost. The client sends the same datagram again,
    // twice; the daemon answers both, under the counter of the request.
    let first_reply = serve(&mut store, &sent.request);
    let second_reply = serve(&mut store, &sent.request);
    assert_eq!(first_reply, [0, 0, 0, 0]);
    assert_eq!(second_reply, first_reply);
    // The first reply finds the caller; the duplicate is dropped.
    assert_eq!(client.receive(&sent.address, &first_reply), Some("writer"));
    assert_eq!(client.receive(&sent.address, &second_reply), None);
}
