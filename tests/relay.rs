use chat_relay::broadcast::Broadcast;
use chat_relay::peer::{Host, PeerAddr};
use chat_relay::reader::{ReadOutcome, ReaderEnd, ReaderTask, READ_CHUNK};
use chat_relay::relay::{RelayAction, RelayEvent};
use chat_relay::table::RelayTable;

/// A stand-in write half: it keeps what was written, or fails every write.
#[derive(Debug, Clone, PartialEq)]
struct Sink {
    id: u32,
    received: Vec<u8>,
    broken: bool,
}

impl Sink {
    fn new(id: u32) -> Sink {
        Sink { id, received: Vec::new(), broken: false }
    }

    fn write_all(&mut self, bytes: &[u8]) -> bool {
        if self.broken {
            false
        } else {
            self.received.extend_from_slice(bytes);
            true
        }
    }
}

fn local(port: u16) -> PeerAddr {
    PeerAddr::new(Host::V4(0x7f00_0001), port)
}

/// Runs a broadcast to the end against the table, as the relay's owner does.
fn run(table: &mut RelayTable<Sink>, mut b: Broadcast) -> Broadcast {
    while let Some(i) = b.next_target() {
        let ok = table.writer_mut(i).write_all(b.payload());
        b.record(ok);
    }
    b
}

fn send(table: &mut RelayTable<Sink>, ev: RelayEvent<Sink>) -> Option<Broadcast> {
    match table.handle(ev) {
        RelayAction::Send(b) => Some(run(table, b)),
        _ => None,
    }
}

fn received_by(table: &mut RelayTable<Sink>, addr: PeerAddr) -> Option<Vec<u8>> {
    let pos = table.position(&addr)?;
    Some(table.writer_mut(pos).received.clone())
}

#[test]
fn hello_reaches_the_other_client_only() {
    let mut table = RelayTable::new();
    table.handle(RelayEvent::Connected(Sink::new(1), local(5001)));
    table.handle(RelayEvent::Connected(Sink::new(2), local(5002)));
    let b = send(&mut table, RelayEvent::Payload(b"hello".to_vec(), local(5001))).unwrap();
    assert!(b.is_done());
    assert_eq!(b.failed(), Vec::<usize>::new());
    assert_eq!(received_by(&mut table, local(5002)).unwrap(), b"hello".to_vec());
    assert_eq!(received_by(&mut table, local(5001)).unwrap(), Vec::<u8>::new());
}

#[test]
fn ping_after_peer_left_goes_nowhere() {
    let mut table = RelayTable::new();
    table.handle(RelayEvent::Connected(Sink::new(1), local(5001)));
    table.handle(RelayEvent::Connected(Sink::new(2), local(5002)));
    match table.handle(RelayEvent::Disconnected(local(5002))) {
        RelayAction::Closed { removed } => assert_eq!(removed.unwrap().id, 2),
        _ => panic!("a disconnect must close the entry"),
    }
    let b = send(&mut table, RelayEvent::Payload(b"ping".to_vec(), local(5001))).unwrap();
    assert!(b.targets().is_empty());
    assert!(b.delivered().is_empty());
    assert_eq!(table.len(), 1);
    assert_eq!(received_by(&mut table, local(5001)).unwrap(), Vec::<u8>::new());
}

#[test]
fn reconnect_from_same_address_is_a_fresh_lifecycle() {
    let mut table = RelayTable::new();
    table.handle(RelayEvent::Connected(Sink::new(1), local(5001)));
    table.handle(RelayEvent::Connected(Sink::new(2), local(5002)));
    table.handle(RelayEvent::Disconnected(local(5002)));
    assert!(!table.contains(&local(5002)));
    match table.handle(RelayEvent::Connected(Sink::new(3), local(5002))) {
        RelayAction::Stored { replaced } => assert!(replaced.is_none()),
        _ => panic!("a connect must store the writer"),
    }
    assert_eq!(table.len(), 2);
    send(&mut table, RelayEvent::Payload(b"again".to_vec(), local(5001))).unwrap();
    let pos = table.position(&local(5002)).unwrap();
    let w = table.writer_mut(pos);
    assert_eq!(w.id, 3);
    assert_eq!(w.received, b"again".to_vec());
}

#[test]
fn broken_peer_does_not_stop_the_broadcast() {
    let mut table = RelayTable::new();
    table.handle(RelayEvent::Connected(Sink::new(1), local(5001)));
    let mut broken = Sink::new(2);
    broken.broken = true;
    table.handle(RelayEvent::Connected(broken, local(5002)));
    table.handle(RelayEvent::Connected(Sink::new(3), local(5003)));
    let b = send(&mut table, RelayEvent::Payload(b"data".to_vec(), local(5001))).unwrap();
    assert_eq!(b.targets().to_vec(), vec![1, 2]);
    assert_eq!(b.failed(), vec![1]);
    assert_eq!(b.delivered(), vec![2]);
    assert_eq!(table.len(), 3);
    assert!(table.contains(&local(5002)));
    assert_eq!(received_by(&mut table, local(5003)).unwrap(), b"data".to_vec());
}

#[test]
fn every_other_client_receives_and_sender_does_not() {
    let mut table = RelayTable::new();
    for p in 0..5u16 {
        table.handle(RelayEvent::Connected(Sink::new(p as u32), local(6000 + p)));
    }
    let b = send(&mut table, RelayEvent::Payload(vec![0, 255, 7], local(6002))).unwrap();
    assert_eq!(b.targets().to_vec(), vec![0, 1, 3, 4]);
    for p in 0..5u16 {
        let got = received_by(&mut table, local(6000 + p)).unwrap();
        if p == 2 {
            assert!(got.is_empty());
        } else {
            assert_eq!(got, vec![0, 255, 7]);
        }
    }
}

#[test]
fn payload_from_unknown_address_reaches_everyone() {
    let mut table = RelayTable::new();
    table.handle(RelayEvent::Connected(Sink::new(1), local(5001)));
    table.handle(RelayEvent::Connected(Sink::new(2), local(5002)));
    let b = send(&mut table, RelayEvent::Payload(b"x".to_vec(), local(7000))).unwrap();
    assert_eq!(b.delivered(), vec![0, 1]);
    assert_eq!(table.len(), 2);
}

#[test]
fn repeated_connect_keeps_one_entry_last_writer_wins() {
    let mut table = RelayTable::new();
    table.handle(RelayEvent::Connected(Sink::new(9), local(4000)));
    for id in 1..4u32 {
        match table.handle(RelayEvent::Connected(Sink::new(id), local(5001))) {
            RelayAction::Stored { replaced } => {
                assert_eq!(replaced.map(|w| w.id), if id == 1 { None } else { Some(id - 1) })
            }
            _ => panic!("a connect must store the writer"),
        }
    }
    assert_eq!(table.len(), 2);
    let pos = table.position(&local(5001)).unwrap();
    assert_eq!(pos, 1);
    assert_eq!(table.writer_mut(pos).id, 3);
}

#[test]
fn disconnect_of_unknown_address_changes_nothing() {
    let mut table = RelayTable::new();
    table.handle(RelayEvent::Connected(Sink::new(1), local(5001)));
    match table.handle(RelayEvent::Disconnected(local(5009))) {
        RelayAction::Closed { removed } => assert!(removed.is_none()),
        _ => panic!("a disconnect must report its removal"),
    }
    assert_eq!(table.len(), 1);
}

#[test]
fn distinct_hosts_with_same_port_are_distinct_peers() {
    let mut table = RelayTable::new();
    let a = PeerAddr::new(Host::V4(0x0a00_0001), 80);
    let b = PeerAddr::new(Host::V6(1), 80);
    table.handle(RelayEvent::Connected(Sink::new(1), a));
    table.handle(RelayEvent::Connected(Sink::new(2), b));
    assert_eq!(table.len(), 2);
    assert!(!a.same_as(&b));
    assert!(a.same_as(&PeerAddr::new(Host::V4(0x0a00_0001), 80)));
}

#[test]
fn reader_events_come_in_connection_order() {
    let (mut task, first) = ReaderTask::start(Sink::new(1), local(5001));
    assert!(matches!(first, RelayEvent::Connected(ref w, a) if w.id == 1 && a == local(5001)));
    let mut buf = [0u8; READ_CHUNK];
    let mut payloads: Vec<Vec<u8>> = Vec::new();
    for marker in [b"one".as_slice(), b"two", b"three"] {
        buf[..marker.len()].copy_from_slice(marker);
        let (ev, end) = task.on_read::<Sink>(&buf, ReadOutcome::Bytes(marker.len()));
        assert!(end.is_none());
        match ev {
            RelayEvent::Payload(bytes, a) => {
                assert_eq!(a, local(5001));
                payloads.push(bytes);
            }
            _ => panic!("a read of bytes must give a payload"),
        }
    }
    assert_eq!(payloads, vec![b"one".to_vec(), b"two".to_vec(), b"three".to_vec()]);
    let (ev, end) = task.on_read::<Sink>(&buf, ReadOutcome::Bytes(0));
    assert!(matches!(ev, RelayEvent::Disconnected(a) if a == local(5001)));
    assert_eq!(end, Some(ReaderEnd::Closed));
    assert!(task.is_finished());
}

#[test]
fn reader_full_chunk_and_failed_read() {
    let (mut task, _) = ReaderTask::start(Sink::new(1), local(5001));
    let buf: Vec<u8> = (0..READ_CHUNK as u32).map(|i| i as u8).collect();
    let (ev, end) = task.on_read::<Sink>(&buf, ReadOutcome::Bytes(READ_CHUNK));
    assert!(end.is_none());
    assert!(matches!(ev, RelayEvent::Payload(ref b, _) if *b == buf));
    let (ev, end) = task.on_read::<Sink>(&buf, ReadOutcome::Failed);
    assert!(matches!(ev, RelayEvent::Disconnected(a) if a == local(5001)));
    assert_eq!(end, Some(ReaderEnd::Failed));
    assert_eq!(task.addr(), local(5001));
}

#[test]
fn relay_preserves_order_of_one_clients_payloads() {
    let mut table = RelayTable::new();
    table.handle(RelayEvent::Connected(Sink::new(1), local(5001)));
    table.handle(RelayEvent::Connected(Sink::new(2), local(5002)));
    for marker in [b"a1".to_vec(), b"b2".to_vec(), b"c3".to_vec()] {
        send(&mut table, RelayEvent::Payload(marker, local(5001)));
    }
    assert_eq!(received_by(&mut table, local(5002)).unwrap(), b"a1b2c3".to_vec());
}
