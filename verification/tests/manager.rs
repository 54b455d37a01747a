use tcpm::protocol::Action;
use tcpm::stream::{ConnectionManager, ReadStep, SocketPair, StreamError, TcpListener, TcpStream};
use tcpm::wire::{encode_segment, parse_datagram, Parsed, TcpFields};

const PEER: u32 = 0x0a00_0002;
const LOCAL: u32 = 0x0a00_0001;

fn pair() -> SocketPair {
    SocketPair { src: (PEER, 1234), dst: (LOCAL, 8010) }
}

fn from_port(port: u16, seq: u32, ack: u32, flags: &str, payload: &[u8]) -> Vec<u8> {
    let h = TcpFields {
        source_port: port,
        destination_port: 8010,
        sequence_number: seq,
        acknowledgment_number: ack,
        window_size: 4096,
        syn: flags.contains('S'),
        ack: flags.contains('A'),
        fin: flags.contains('F'),
        rst: flags.contains('R'),
    };
    encode_segment(PEER, LOCAL, &h, payload)
}

fn from_peer(seq: u32, ack: u32, flags: &str, payload: &[u8]) -> Vec<u8> {
    from_port(1234, seq, ack, flags, payload)
}

fn sent(datagram: &Option<Vec<u8>>) -> (Parsed, Vec<u8>) {
    let bytes = datagram.as_ref().expect("a datagram was due");
    let p = parse_datagram(bytes).expect("the datagram parses");
    (p, bytes[p.data_start..].to_vec())
}

/// A table with port 8010 bound and one connection accepted and
/// established.
fn connected() -> (ConnectionManager, TcpListener, TcpStream) {
    let mut cm = ConnectionManager::new();
    let listener = cm.bind(8010).unwrap();
    cm.on_datagram(&from_peer(100, 0, "S", &[]), 0);
    cm.on_datagram(&from_peer(101, 1, "A", &[]), 10);
    let stream = listener.try_new(&mut cm).unwrap();
    (cm, listener, stream)
}

#[test]
fn bind_binds_a_port_once() {
    let mut cm = ConnectionManager::new();
    assert!(!cm.is_bound(8010));
    let listener = cm.bind(8010).unwrap();
    assert_eq!(listener.port, 8010);
    assert!(cm.is_bound(8010));
    assert_eq!(cm.bind(8010).err(), Some(StreamError::AddrInUse));
    assert!(cm.bind(8011).is_ok());
}

#[test]
fn passive_open_and_byte_echo() {
    let mut cm = ConnectionManager::new();
    let listener = cm.bind(8010).unwrap();
    assert!(listener.try_new(&mut cm).is_none());

    let (action, datagram) = cm.on_datagram(&from_peer(100, 0, "S", &[]), 0);
    assert_eq!(action, Some(Action::New));
    let (p, payload) = sent(&datagram);
    assert_eq!((p.ip.source, p.ip.destination), (LOCAL, PEER));
    assert_eq!((p.tcp.source_port, p.tcp.destination_port), (8010, 1234));
    assert_eq!(p.tcp.sequence_number, 0);
    assert_eq!(p.tcp.acknowledgment_number, 101);
    assert_eq!(p.tcp.window_size, 1024);
    assert!(p.tcp.syn && p.tcp.ack && !p.tcp.fin && !p.tcp.rst);
    assert!(payload.is_empty());
    assert_eq!(cm.len(), 1);
    assert!(cm.contains(&pair()));

    let stream = listener.try_new(&mut cm).unwrap();
    assert_eq!(stream.socketpair(), pair());
    assert!(listener.try_new(&mut cm).is_none());

    assert_eq!(cm.on_datagram(&from_peer(101, 1, "A", &[]), 10), (Some(Action::Continue), None));
    assert_eq!(stream.read(&mut cm, 1024), Ok(ReadStep::Wait));

    let (action, datagram) = cm.on_datagram(&from_peer(101, 1, "A", b"hello"), 20);
    assert_eq!(action, Some(Action::Read));
    let (p, payload) = sent(&datagram);
    assert_eq!(p.tcp.sequence_number, 1);
    assert_eq!(p.tcp.acknowledgment_number, 106);
    assert!(p.tcp.ack && !p.tcp.syn);
    assert!(payload.is_empty());

    assert_eq!(stream.read(&mut cm, 1024), Ok(ReadStep::Data(b"hello".to_vec())));
    assert_eq!(stream.read(&mut cm, 1024), Ok(ReadStep::Wait));
}

#[test]
fn orderly_close_by_peer() {
    let (mut cm, _listener, stream) = connected();
    cm.on_datagram(&from_peer(101, 1, "A", b"hello"), 20);

    let (action, datagram) = cm.on_datagram(&from_peer(106, 1, "AF", &[]), 30);
    assert_eq!(action, Some(Action::Continue));
    let (p, _) = sent(&datagram);
    assert!(p.tcp.fin && p.tcp.ack);
    assert_eq!(p.tcp.sequence_number, 1);
    assert_eq!(p.tcp.acknowledgment_number, 107);
    assert!(cm.contains(&pair()));
    // what arrived before the FIN can still be read
    assert_eq!(stream.read(&mut cm, 3), Ok(ReadStep::Data(b"hel".to_vec())));

    assert_eq!(cm.on_datagram(&from_peer(107, 2, "A", &[]), 40), (Some(Action::Close), None));
    assert!(!cm.contains(&pair()));
    assert_eq!(cm.len(), 0);
    assert_eq!(stream.read(&mut cm, 3), Err(StreamError::ConnectionAborted));
}

#[test]
fn retransmission_through_the_table() {
    let (mut cm, _listener, stream) = connected();
    cm.on_datagram(&from_peer(101, 1, "A", b"hello"), 20);
    assert_eq!(stream.write(&mut cm, b"world"), Ok(5));
    assert_eq!(stream.flush(&cm), Err(StreamError::WouldBlock));

    let ticks = cm.on_idle(100);
    assert_eq!(ticks.len(), 1);
    assert_eq!(ticks[0].pair, pair());
    assert_eq!(ticks[0].action, Action::Continue);
    let (p, payload) = sent(&ticks[0].datagram);
    assert_eq!(p.tcp.sequence_number, 1);
    assert_eq!(p.tcp.acknowledgment_number, 106);
    assert_eq!(payload, b"world".to_vec());

    // the peer is silent; the estimate is (4 * 60 s + 10 us) / 5
    let wait = 48_000_002u64 * 3 / 2;
    let ticks = cm.on_idle(100 + wait);
    assert!(ticks[0].datagram.is_none());
    let ticks = cm.on_idle(100 + wait + 1);
    let (p, payload) = sent(&ticks[0].datagram);
    assert_eq!(p.tcp.sequence_number, 1);
    assert_eq!(payload, b"world".to_vec());

    assert_eq!(cm.on_datagram(&from_peer(106, 6, "A", &[]), 200 + wait), (Some(Action::Continue), None));
    assert_eq!(stream.flush(&cm), Ok(()));
    let ticks = cm.on_idle(300 + 2 * wait);
    assert!(ticks[0].datagram.is_none());
}

#[test]
fn out_of_window_segment_through_the_table() {
    let (mut cm, _listener, stream) = connected();
    cm.on_datagram(&from_peer(101, 1, "A", b"hello"), 20);
    let (action, datagram) = cm.on_datagram(&from_peer(2000, 1, "A", b"x"), 30);
    assert_eq!(action, Some(Action::Continue));
    assert_eq!(sent(&datagram).0.tcp.acknowledgment_number, 106);
    assert_eq!(stream.read(&mut cm, 100), Ok(ReadStep::Data(b"hello".to_vec())));
    assert_eq!(stream.read(&mut cm, 100), Ok(ReadStep::Wait));
}

#[test]
fn first_segment_without_syn_is_dropped() {
    let mut cm = ConnectionManager::new();
    cm.bind(8010).unwrap();
    assert_eq!(cm.on_datagram(&from_peer(100, 1, "A", &[]), 0), (None, None));
    assert_eq!(cm.on_datagram(&from_peer(100, 1, "AF", b"x"), 0), (None, None));
    assert_eq!(cm.on_datagram(&from_peer(100, 1, "R", &[]), 0), (None, None));
    assert_eq!(cm.len(), 0);
}

#[test]
fn syn_for_an_unbound_port_is_dropped() {
    let mut cm = ConnectionManager::new();
    cm.bind(8011).unwrap();
    assert_eq!(cm.on_datagram(&from_peer(100, 0, "S", &[]), 0), (None, None));
    assert_eq!(cm.len(), 0);
}

#[test]
fn datagram_that_does_not_parse_is_dropped() {
    let (mut cm, _listener, _stream) = connected();
    let mut bytes = from_peer(101, 1, "A", b"hello");
    bytes[9] = 17;
    assert_eq!(cm.on_datagram(&bytes, 20), (None, None));
    assert_eq!(cm.on_datagram(&bytes[..30], 20), (None, None));
    assert_eq!(cm.on_datagram(&[], 20), (None, None));
    assert_eq!(cm.len(), 1);
}

#[test]
fn repeated_syn_opens_at_most_one_connection() {
    let mut cm = ConnectionManager::new();
    let listener = cm.bind(8010).unwrap();
    let syn = from_peer(100, 0, "S", &[]);
    assert_eq!(cm.on_datagram(&syn, 0).0, Some(Action::New));
    assert_eq!(cm.len(), 1);
    let (action, datagram) = cm.on_datagram(&syn, 1);
    assert_eq!(action, Some(Action::Continue));
    let (p, _) = sent(&datagram);
    assert!(p.tcp.ack && !p.tcp.syn && !p.tcp.rst);
    assert_eq!(p.tcp.acknowledgment_number, 101);
    assert_eq!(cm.len(), 1);
    assert!(cm.contains(&pair()));
    // it waits to be accepted once
    assert!(listener.try_new(&mut cm).is_some());
    assert!(listener.try_new(&mut cm).is_none());
}

#[test]
fn syn_with_data_on_an_open_connection_is_reset() {
    let mut cm = ConnectionManager::new();
    cm.bind(8010).unwrap();
    cm.on_datagram(&from_peer(100, 0, "S", &[]), 0);
    let (action, datagram) = cm.on_datagram(&from_peer(100, 0, "S", b"xy"), 1);
    assert_eq!(action, Some(Action::Close));
    assert!(sent(&datagram).0.tcp.rst);
    assert_eq!(cm.len(), 0);
}

#[test]
fn connections_are_told_apart_by_their_four_tuple() {
    let mut cm = ConnectionManager::new();
    let listener = cm.bind(8010).unwrap();
    cm.on_datagram(&from_port(1234, 100, 0, "S", &[]), 0);
    cm.on_datagram(&from_port(1235, 500, 0, "S", &[]), 0);
    assert_eq!(cm.len(), 2);
    cm.on_datagram(&from_port(1234, 101, 1, "A", b"one"), 1);
    cm.on_datagram(&from_port(1235, 501, 1, "A", b"two"), 1);
    // accepted in the order of arrival
    let first = listener.try_new(&mut cm).unwrap();
    let second = listener.try_new(&mut cm).unwrap();
    assert_eq!(first.socketpair().src.1, 1234);
    assert_eq!(second.socketpair().src.1, 1235);
    assert_eq!(second.read(&mut cm, 10), Ok(ReadStep::Data(b"two".to_vec())));
    assert_eq!(first.read(&mut cm, 10), Ok(ReadStep::Data(b"one".to_vec())));
    // a reset ends one and leaves the other
    assert_eq!(cm.on_datagram(&from_port(1234, 104, 1, "R", &[]), 2).0, Some(Action::Close));
    assert_eq!(cm.len(), 1);
    assert!(cm.contains(&second.socketpair()));
    assert!(!cm.contains(&first.socketpair()));
}

#[test]
fn write_fills_the_queue_and_then_would_block() {
    let (mut cm, _listener, stream) = connected();
    assert_eq!(stream.write(&mut cm, &[1u8; 1000]), Ok(1000));
    assert_eq!(stream.write(&mut cm, &[2u8; 100]), Ok(24));
    assert_eq!(stream.write(&mut cm, b"x"), Err(StreamError::WouldBlock));
    assert_eq!(stream.write(&mut cm, &[]), Err(StreamError::WouldBlock));
}

#[test]
fn write_after_shutdown_is_a_broken_pipe() {
    let (mut cm, _listener, stream) = connected();
    assert!(stream.can_shutdown(&cm));
    assert_eq!(stream.shutdown(&mut cm), Ok(()));
    assert!(!stream.can_shutdown(&cm));
    assert_eq!(stream.write(&mut cm, b"x"), Err(StreamError::BrokenPipe));
    // the FIN goes out with the next tick
    let ticks = cm.on_idle(100);
    assert!(sent(&ticks[0].datagram).0.tcp.fin);
}

#[test]
fn operations_on_a_removed_connection_are_aborted() {
    let (mut cm, _listener, stream) = connected();
    assert!(cm.remove(&pair()));
    assert!(!cm.remove(&pair()));
    assert_eq!(cm.len(), 0);
    assert_eq!(stream.read(&mut cm, 10), Err(StreamError::ConnectionAborted));
    assert_eq!(stream.write(&mut cm, b"x"), Err(StreamError::ConnectionAborted));
    assert_eq!(stream.flush(&cm), Err(StreamError::ConnectionAborted));
    assert!(stream.can_shutdown(&cm));
    assert_eq!(stream.shutdown(&mut cm), Err(StreamError::ConnectionAborted));
}

#[test]
fn read_reports_the_end_of_the_stream() {
    let (mut cm, _listener, stream) = connected();
    cm.on_datagram(&from_peer(101, 1, "A", b"hello"), 20);
    stream.shutdown(&mut cm).unwrap();
    cm.on_idle(100);
    cm.on_datagram(&from_peer(106, 2, "A", &[]), 200);
    assert_eq!(cm.on_datagram(&from_peer(106, 2, "AF", &[]), 300).0, Some(Action::Continue));
    // the bytes that wait come first, then the end
    assert_eq!(stream.read(&mut cm, 10), Ok(ReadStep::Data(b"hello".to_vec())));
    assert_eq!(stream.read(&mut cm, 10), Ok(ReadStep::End));
    assert_eq!(stream.read(&mut cm, 10), Ok(ReadStep::End));
}

#[test]
fn time_wait_ends_on_a_tick_and_the_caller_removes() {
    let (mut cm, _listener, stream) = connected();
    stream.shutdown(&mut cm).unwrap();
    cm.on_idle(100);
    cm.on_datagram(&from_peer(101, 2, "AF", &[]), 300);
    let ticks = cm.on_idle(300 + 1_999_999);
    assert_eq!(ticks[0].action, Action::Continue);
    let ticks = cm.on_idle(300 + 2_000_000);
    assert_eq!(ticks[0].action, Action::Close);
    assert!(ticks[0].datagram.is_none());
    // the connection stays until it is removed
    assert_eq!(cm.len(), 1);
    assert!(cm.remove(&ticks[0].pair));
    assert_eq!(cm.len(), 0);
}

#[test]
fn idle_table_has_nothing_to_do() {
    let mut cm = ConnectionManager::new();
    assert!(cm.on_idle(5).is_empty());
    cm.bind(8010).unwrap();
    assert!(cm.on_idle(6).is_empty());
}

#[test]
fn tick_visits_every_connection() {
    let mut cm = ConnectionManager::new();
    let listener = cm.bind(8010).unwrap();
    for port in [1234u16, 1235, 1236] {
        cm.on_datagram(&from_port(port, 100, 0, "S", &[]), 0);
        cm.on_datagram(&from_port(port, 101, 1, "A", &[]), 1);
    }
    let streams = [
        listener.try_new(&mut cm).unwrap(),
        listener.try_new(&mut cm).unwrap(),
        listener.try_new(&mut cm).unwrap(),
    ];
    streams[0].write(&mut cm, b"a").unwrap();
    streams[2].write(&mut cm, b"ccc").unwrap();
    let ticks = cm.on_idle(10);
    // one report for each connection, in no particular order
    assert_eq!(ticks.len(), 3);
    let of = |port: u16| ticks.iter().find(|t| t.pair.src.1 == port).unwrap();
    assert_eq!(sent(&of(1234).datagram).1, b"a".to_vec());
    assert!(of(1235).datagram.is_none());
    assert_eq!(sent(&of(1236).datagram).1, b"ccc".to_vec());
    for tick in &ticks {
        assert_eq!(tick.action, Action::Continue);
        assert_eq!(tick.pair.dst, (LOCAL, 8010));
    }
}

#[test]
fn four_tuples_that_differ_in_one_part_are_different_connections() {
    let mut cm = ConnectionManager::new();
    cm.bind(80).unwrap();
    cm.bind(81).unwrap();
    let mut opened = Vec::new();
    for (source, source_port, destination, port) in [
        (PEER, 1000u16, LOCAL, 80u16),
        (PEER + 1, 1000, LOCAL, 80),
        (PEER, 1001, LOCAL, 80),
        (PEER, 1000, LOCAL + 1, 80),
        (PEER, 1000, LOCAL, 81),
        (0, 0, 0, 80),
        (0xffff_ffff, 0xffff, 0xffff_ffff, 81),
    ] {
        let mut h = TcpFields {
            source_port,
            destination_port: port,
            sequence_number: 7,
            acknowledgment_number: 0,
            window_size: 1,
            syn: true,
            ack: false,
            fin: false,
            rst: false,
        };
        let (action, _) = cm.on_datagram(&encode_segment(source, destination, &h, &[]), 0);
        assert_eq!(action, Some(Action::New));
        let pair = SocketPair { src: (source, source_port), dst: (destination, port) };
        assert!(cm.contains(&pair));
        opened.push(pair);
        // the same four-tuple again opens nothing
        h.sequence_number = 7;
        let (action, _) = cm.on_datagram(&encode_segment(source, destination, &h, &[]), 1);
        assert_eq!(action, Some(Action::Continue));
        assert_eq!(cm.len(), opened.len());
    }
    for (i, a) in opened.iter().enumerate() {
        for b in &opened[i + 1..] {
            assert_ne!(a.key(), b.key());
        }
    }
    assert!(cm.remove(&opened[0]));
    assert!(!cm.contains(&opened[0]));
    for pair in &opened[1..] {
        assert!(cm.contains(pair));
    }
}

#[test]
fn key_packs_the_four_parts() {
    let pair = SocketPair { src: (0x0a00_0002, 0x04d2), dst: (0x0a00_0001, 0x1f4a) };
    assert_eq!(pair.key(), 0x0a00_0002_04d2_0a00_0001_1f4a);
    let pair = SocketPair { src: (0xffff_ffff, 0xffff), dst: (0xffff_ffff, 0xffff) };
    assert_eq!(pair.key(), 0xffff_ffff_ffff_ffff_ffff_ffff);
}

#[test]
fn connection_that_ends_before_it_is_accepted_is_not_handed_out() {
    let mut cm = ConnectionManager::new();
    let listener = cm.bind(8010).unwrap();
    cm.on_datagram(&from_port(1234, 100, 0, "S", &[]), 0);
    cm.on_datagram(&from_port(1235, 500, 0, "S", &[]), 0);
    cm.on_datagram(&from_port(1236, 900, 0, "S", &[]), 0);
    // the first is reset by its peer, the third is removed by the caller
    assert_eq!(cm.on_datagram(&from_port(1234, 101, 0, "R", &[]), 1).0, Some(Action::Close));
    assert!(cm.remove(&SocketPair { src: (PEER, 1236), dst: (LOCAL, 8010) }));
    assert_eq!(cm.len(), 1);
    let stream = listener.try_new(&mut cm).unwrap();
    assert_eq!(stream.socketpair().src.1, 1235);
    assert!(listener.try_new(&mut cm).is_none());
}

#[test]
fn listener_of_an_unbound_port_has_nothing_to_hand_out() {
    let mut cm = ConnectionManager::new();
    let listener = TcpListener { port: 9 };
    assert!(listener.try_new(&mut cm).is_none());
    assert!(!cm.is_bound(9));
}

#[test]
fn time_wait_ends_for_a_connection_with_a_small_round_trip_estimate() {
    let (mut cm, _listener, stream) = connected();
    let mut ack = 1u32;
    for _ in 0..80 {
        stream.write(&mut cm, b"x").unwrap();
        cm.on_idle(10);
        ack += 1;
        cm.on_datagram(&from_peer(101, ack, "A", &[]), 10);
    }
    stream.shutdown(&mut cm).unwrap();
    cm.on_idle(10);
    cm.on_datagram(&from_peer(101, ack + 1, "AF", &[]), 10);
    let mut now = 10;
    while now < 10 + 2_000_000 {
        let ticks = cm.on_idle(now);
        assert_eq!(ticks[0].action, Action::Continue);
        assert!(ticks[0].datagram.is_none());
        now += 10_000;
    }
    let ticks = cm.on_idle(10 + 2_000_000);
    assert_eq!(ticks[0].action, Action::Close);
    assert!(cm.remove(&ticks[0].pair));
    assert_eq!(stream.read(&mut cm, 1), Err(StreamError::ConnectionAborted));
}
