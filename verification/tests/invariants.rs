use tcpm::protocol::{Action, State, TCB};
use tcpm::stream::{ConnectionManager, ReadStep};
use tcpm::util::le;
use tcpm::wire::{encode_segment, parse_datagram, Ipv4Fields, TcpFields};

const PEER: u32 = 0xc0a8_0102;
const LOCAL: u32 = 0xc0a8_0101;

/// A small generator of numbers that look random and are the same on
/// every run.
struct Numbers(u64);

impl Numbers {
    fn next(&mut self) -> u64 {
        self.0 = self.0.wrapping_mul(6364136223846793005).wrapping_add(1442695040888963407);
        self.0 >> 33
    }

    fn below(&mut self, n: u64) -> u64 {
        self.next() % n
    }
}

fn ip() -> Ipv4Fields {
    Ipv4Fields { protocol: 6, source: PEER, destination: LOCAL }
}

fn header(seq: u32, ack: u32, flags: u64) -> TcpFields {
    TcpFields {
        source_port: 40000,
        destination_port: 80,
        sequence_number: seq,
        acknowledgment_number: ack,
        window_size: 512,
        syn: flags & 1 != 0,
        ack: flags & 2 != 0,
        fin: flags & 4 != 0,
        rst: flags & 8 != 0,
    }
}

/// What holds of a connection whatever happened to it.
fn check(tcb: &TCB, irs: u32) {
    let (send, recv) = (tcb.send(), tcb.recv());
    assert!(le(send.una, send.nxt));
    assert!(tcb.outgoing_len() <= 1024);
    let flight = send.nxt.wrapping_sub(send.una) as usize;
    assert!(flight <= tcb.outgoing_len() + 2);
    if !tcb.is_closed() && tcb.state() != State::SynRcvd && send.una != send.iss {
        assert!(tcb.outgoing_len() >= flight);
    }
    assert_eq!(recv.irs, irs);
    assert_eq!(recv.wnd, 1024);
    assert!(recv.nxt.wrapping_sub(recv.irs) >= 1);
    assert_ne!(tcb.state(), State::Listen);
    // timers run under the oldest unacknowledged number only
    for k in [send.una.wrapping_sub(1), send.una.wrapping_add(1), send.nxt, send.iss] {
        if k != send.una {
            assert_eq!(tcb.send_time(k), None);
        }
    }
    match tcb.state() {
        State::SynRcvd | State::Estab | State::CloseWait => assert_eq!(tcb.closed_at(), None),
        State::FinWait1 | State::Closing | State::LastAck => {
            assert!(tcb.is_closed());
            if let Some(at) = tcb.closed_at() {
                assert_eq!(at, send.una);
            }
        }
        _ => {}
    }
}

#[test]
fn whatever_arrives_the_connection_stays_well_formed() {
    for seed in 0..200u64 {
        let mut n = Numbers(seed * 7919 + 1);
        let irs = n.next() as u32;
        let iss = if seed % 3 == 0 { 0xffff_ff00u32.wrapping_add(n.below(512) as u32) } else { n.next() as u32 };
        let (mut tcb, _) = TCB::open_with(&ip(), &header(irs, 0, 1), iss, 0).unwrap();
        check(&tcb, irs);
        let mut now = 0u64;
        for _ in 0..300 {
            now += n.below(400_000);
            match n.below(10) {
                0..=4 => {
                    // a segment near the numbers the connection expects
                    let seq = tcb.recv().nxt.wrapping_add(n.below(7) as u32).wrapping_sub(3);
                    let ack = tcb.send().una.wrapping_add(n.below(1100) as u32).wrapping_sub(2);
                    let flags = if n.below(12) == 0 { n.below(16) } else { 2 | (n.below(8) == 0) as u64 * 4 };
                    let len = n.below(6) as usize;
                    let data = vec![b'x'; len];
                    let before = tcb.incoming_len();
                    let (action, datagram) = tcb.on_segment(&header(seq, ack, flags), &data, now);
                    assert_ne!(action, Action::New);
                    assert!(tcb.incoming_len() >= before);
                    assert!(tcb.incoming_len() - before <= len);
                    assert_eq!(action == Action::Read, tcb.incoming_len() > before);
                    if let Some(d) = datagram {
                        let p = parse_datagram(&d).unwrap();
                        assert_eq!((p.ip.source, p.ip.destination), (LOCAL, PEER));
                        assert_eq!((p.tcp.source_port, p.tcp.destination_port), (80, 40000));
                        assert_eq!(p.tcp.acknowledgment_number, tcb.recv().nxt);
                        assert_eq!(p.tcp.window_size, 1024);
                        assert!(d.len() <= 1500);
                    }
                    if action == Action::Close {
                        break;
                    }
                }
                5 | 6 => {
                    let (action, datagram) = tcb.on_tick(now);
                    assert!(action == Action::Continue || action == Action::Close);
                    if let Some(d) = datagram {
                        assert!(d.len() <= 1500);
                        // whatever goes out starts its timer
                        assert_eq!(tcb.send_time(tcb.send().una), Some(now));
                    }
                    if action == Action::Close {
                        break;
                    }
                }
                7 => {
                    let len = n.below(700) as usize;
                    let room = 1024 - tcb.outgoing_len();
                    assert_eq!(tcb.queue(&vec![b'y'; len]), len.min(room));
                }
                8 => {
                    let max = n.below(9) as usize;
                    let waiting = tcb.incoming_len();
                    assert_eq!(tcb.consume(max).len(), max.min(waiting));
                }
                _ => {
                    if tcb.can_close() {
                        tcb.close();
                    }
                }
            }
            check(&tcb, irs);
        }
    }
}

#[test]
fn whatever_arrives_no_four_tuple_is_held_twice() {
    for seed in 0..50u64 {
        let mut n = Numbers(seed * 104729 + 3);
        let mut cm = ConnectionManager::new();
        let listener = cm.bind(80).unwrap();
        let mut now = 0u64;
        for _ in 0..400 {
            now += n.below(300_000);
            let port = 40000 + n.below(4) as u16;
            let mut h = header(n.below(3) as u32 + 100, n.below(4) as u32, n.below(16));
            h.source_port = port;
            if n.below(3) == 0 {
                h.syn = true;
                h.ack = false;
                h.rst = false;
                h.fin = false;
            }
            let payload = vec![b'z'; n.below(3) as usize];
            let before = cm.len();
            match n.below(8) {
                0..=4 => {
                    let (action, _) = cm.on_datagram(&encode_segment(PEER, LOCAL, &h, &payload), now);
                    match action {
                        Some(Action::New) => assert_eq!(cm.len(), before + 1),
                        Some(Action::Close) => assert_eq!(cm.len(), before - 1),
                        _ => assert_eq!(cm.len(), before),
                    }
                }
                5 => {
                    for tick in cm.on_idle(now) {
                        if tick.action == Action::Close {
                            assert!(cm.remove(&tick.pair));
                        }
                    }
                }
                6 => {
                    if let Some(stream) = listener.try_new(&mut cm) {
                        // what is handed out is in the table
                        assert!(cm.contains(&stream.socketpair()));
                        let _ = stream.write(&mut cm, b"hello");
                    }
                }
                _ => {
                    if let Some(stream) = listener.try_new(&mut cm) {
                        match stream.read(&mut cm, 4) {
                            Ok(ReadStep::Data(bytes)) => assert!(bytes.len() <= 4),
                            Ok(_) => {}
                            Err(_) => assert!(!cm.contains(&stream.socketpair())),
                        }
                    }
                }
            }
            // at most four peers ever talk to us
            assert!(cm.len() <= 4);
        }
    }
}
