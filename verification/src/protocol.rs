//! The transmission control block: one connection's state machine.
//!
//! `TCB` carries out on machine data what the model in `crate::model` says
//! of a connection as a mathematical value, and is proved to follow it. An
//! operation hands back what it wants sent, as the bytes of a datagram,
//! instead of sending it; the time is handed in, in microseconds.

use crate::model::{
    acceptable, data_len, elapsed, lemma_on_segment_wf, lemma_on_tick_wf, smooth, TcbView,
};
use crate::queue::{append_range, copy_range, drop_front, take_front};
use crate::stream::SocketPair;
use crate::util::{gap, le, lemma_seq_add_twice, lt, segment_valid, seq_add, spec_seq_add};
use crate::wire::{encode_segment, Ipv4Fields, TcpFields, MAX_PAYLOAD};
use std::collections::BTreeMap;
use std::collections::VecDeque;
use vstd::prelude::*;

verus! {

/// The receive window, fixed for the life of a connection.
pub const RECEIVE_WINDOW: u16 = 1024;

/// Most bytes that wait in the outgoing queue at any time.
pub const OUTGOING_LIMIT: usize = 1024;

/// The round-trip estimate of a fresh connection, in microseconds.
pub const INITIAL_SRTT: u64 = 60_000_000;

/// No segment is sent again before it has waited this long, in
/// microseconds.
pub const MIN_RETRANSMIT_WAIT: u64 = 1_000_000;

/// How long a connection lingers in TIME-WAIT, in microseconds: twice the
/// maximum segment lifetime.
pub const TIME_WAIT_LENGTH: u64 = 2_000_000;

/// The states of a connection. A block is never in `Listen`: a bound port
/// without a connection stands for it.
#[derive(Clone, Copy, Debug, PartialEq, Eq, Structural)]
pub enum State {
    Listen,
    SynRcvd,
    Estab,
    FinWait1,
    FinWait2,
    CloseWait,
    Closing,
    LastAck,
    TimeWait,
    Closed,
}

/// Send sequence variables.
#[derive(Clone, Copy, Debug, PartialEq, Eq, Structural)]
pub struct SendSequenceSpace {
    /// initial sequence number for sending
    pub iss: u32,
    /// oldest unacknowledged sequence number
    pub una: u32,
    /// next sequence number for sending
    pub nxt: u32,
    /// send window, as the peer advertised it
    pub wnd: u16,
    /// sequence number of the segment that last updated the window
    pub wl1: u32,
    /// acknowledgment number of the segment that last updated the window
    pub wl2: u32,
}

impl SendSequenceSpace {
    /// The send variables of a new connection that numbers its own bytes
    /// from 0.
    pub fn new(irs: u32, wnd: u16) -> (s: Self)
        ensures
            s == Self::starting_at(0, irs, wnd),
    {
        Self::with_iss(0, irs, wnd)
    }

    /// The send variables of a connection that numbers its own bytes from
    /// `iss`, opened by a segment numbered `irs` that advertised `wnd`.
    pub open spec fn starting_at(iss: u32, irs: u32, wnd: u16) -> Self {
        SendSequenceSpace { iss, una: iss, nxt: iss, wnd, wl1: irs, wl2: irs }
    }

    /// The send variables of a new connection that numbers its own bytes
    /// from `iss`.
    pub fn with_iss(iss: u32, irs: u32, wnd: u16) -> (s: Self)
        ensures
            s == Self::starting_at(iss, irs, wnd),
    {
        SendSequenceSpace { iss, una: iss, nxt: iss, wnd, wl1: irs, wl2: irs }
    }
}

/// Receive sequence variables.
#[derive(Clone, Copy, Debug, PartialEq, Eq, Structural)]
pub struct RecvSequenceSpace {
    /// next sequence number expected from the peer
    pub nxt: u32,
    /// receive window
    pub wnd: u16,
    /// initial sequence number of the peer
    pub irs: u32,
}

impl RecvSequenceSpace {
    /// The receive variables of a new connection: the next number expected
    /// is the one after the peer's SYN.
    pub fn new(irs: u32) -> (r: Self)
        ensures
            r == Self::starting_at(irs),
            gap(r.irs, r.nxt) == 1,
    {
        RecvSequenceSpace { nxt: irs.wrapping_add(1), wnd: RECEIVE_WINDOW, irs }
    }

    /// The receive variables after a SYN numbered `irs`.
    pub open spec fn starting_at(irs: u32) -> Self {
        RecvSequenceSpace { nxt: spec_seq_add(irs, 1), wnd: RECEIVE_WINDOW, irs }
    }
}

/// What the caller has to do after an operation.
#[derive(Clone, Copy, Debug, PartialEq, Eq, Structural)]
pub enum Action {
    /// a connection was created: wake whoever waits to accept
    New,
    /// the connection is over: remove it, and wake whoever waits to read
    Close,
    /// nothing
    Continue,
    /// bytes were delivered: wake whoever waits to read
    Read,
}

/// The kinds of segment that a connection emits.
#[derive(Clone, Copy, Debug, PartialEq, Eq, Structural)]
pub enum Request {
    /// what was sent before, again, from the oldest unacknowledged number
    ReTransmit,
    /// a reset
    RST,
    /// a SYN without acknowledgment
    SYN,
    /// the answer to a SYN
    SYNACK,
    /// an acknowledgment, with whatever is queued and was not sent yet
    ACK,
    /// our FIN, with whatever is queued and was not sent yet
    FIN,
}

/// The retransmission timers and the round-trip estimate of a connection.
/// Times are microseconds on the caller's monotonic clock.
pub struct Timers {
    send_times: BTreeMap<u32, u64>,
    srtt: u64,
}

/// The transmission control block of one connection.
pub struct TCB {
    state: State,
    send: SendSequenceSpace,
    recv: RecvSequenceSpace,
    pair: SocketPair,
    closed: bool,
    closed_at: Option<u32>,
    timers: Timers,
    incoming: VecDeque<u8>,
    outgoing: VecDeque<u8>,
}

impl View for TCB {
    type V = TcbView;

    closed spec fn view(&self) -> TcbView {
        TcbView {
            state: self.state,
            send: self.send,
            recv: self.recv,
            pair: self.pair,
            closed: self.closed,
            closed_at: self.closed_at,
            send_times: self.timers.send_times@,
            srtt: self.timers.srtt,
            incoming: self.incoming@,
            outgoing: self.outgoing@,
        }
    }
}

/// The four-tuple of the connection that a segment with these headers
/// belongs to.
pub open spec fn spec_pair_of(ip: &Ipv4Fields, tcp: &TcpFields) -> SocketPair {
    SocketPair {
        src: (ip.source, tcp.source_port),
        dst: (ip.destination, tcp.destination_port),
    }
}

#[verifier::when_used_as_spec(spec_pair_of)]
pub fn pair_of(ip: &Ipv4Fields, tcp: &TcpFields) -> (pair: SocketPair)
    ensures
        pair == spec_pair_of(ip, tcp),
{
    SocketPair { src: (ip.source, tcp.source_port), dst: (ip.destination, tcp.destination_port) }
}

/// The last sequence number that a segment occupies.
fn last_number(h: &TcpFields, payload_len: usize) -> (last: u32)
    requires
        data_len(*h, payload_len as int) > 0,
    ensures
        last == spec_seq_add(h.sequence_number, data_len(*h, payload_len as int) - 1),
{
    let seq = h.sequence_number;
    let mut flags: u32 = 0;
    if h.syn {
        flags += 1;
    }
    if h.fin {
        flags += 1;
    }
    if payload_len > 0 {
        let body = seq_add(seq, payload_len - 1);
        proof {
            lemma_seq_add_twice(seq, payload_len - 1, flags as int);
        }
        assert(body.wrapping_add(flags) == spec_seq_add(body, flags as int));
        body.wrapping_add(flags)
    } else {
        seq.wrapping_add(flags - 1)
    }
}

impl TCB {
    /// A block in SYN-RECEIVED for the connection that `syn` opens.
    fn new(pair: SocketPair, syn: &TcpFields, iss: u32) -> (tcb: Self)
        ensures
            tcb@ == TcbView::opened(pair, *syn, iss),
    {
        TCB {
            state: State::SynRcvd,
            send: SendSequenceSpace::with_iss(iss, syn.sequence_number, syn.window_size),
            recv: RecvSequenceSpace::new(syn.sequence_number),
            pair,
            closed: false,
            closed_at: None,
            timers: Timers { send_times: BTreeMap::new(), srtt: INITIAL_SRTT },
            incoming: VecDeque::new(),
            outgoing: VecDeque::new(),
        }
    }

    /// Opens a connection on the first segment from a peer, numbering our
    /// own bytes from `iss`. The segment must be a SYN; any other gives
    /// `None`. With the new block comes the SYN+ACK to send.
    pub fn open_with(ip: &Ipv4Fields, tcp: &TcpFields, iss: u32, now: u64) -> (r: Option<
        (TCB, Vec<u8>),
    >)
        ensures
            match r {
                Some((tcb, datagram)) => {
                    let fresh = TcbView::opened(pair_of(ip, tcp), *tcp, iss);
                    let o = fresh.reply(Request::SYNACK, MAX_PAYLOAD as nat, now, Action::New);
                    &&& tcp.syn
                    &&& tcb@ == o.tcb
                    &&& Some(datagram@) == o.datagram()
                    &&& tcb@.wf()
                },
                None => !tcp.syn,
            },
    {
        if !tcp.syn {
            return None;
        }
        let mut tcb = TCB::new(pair_of(ip, tcp), tcp, iss);
        let datagram = tcb.write(Request::SYNACK, MAX_PAYLOAD, now);
        Some((tcb, datagram))
    }

    /// Opens a connection on the first segment from a peer. The segment
    /// must be a SYN; any other gives `None`. With the new block comes the
    /// SYN+ACK to send.
    pub fn new_connection(ip: &Ipv4Fields, tcp: &TcpFields, now: u64) -> (r: Option<
        (TCB, Vec<u8>),
    >)
        ensures
            match r {
                Some((tcb, datagram)) => {
                    let fresh = TcbView::opened(pair_of(ip, tcp), *tcp, 0);
                    let o = fresh.reply(Request::SYNACK, MAX_PAYLOAD as nat, now, Action::New);
                    &&& tcp.syn
                    &&& tcb@ == o.tcb
                    &&& Some(datagram@) == o.datagram()
                    &&& tcb@.wf()
                },
                None => !tcp.syn,
            },
    {
        TCB::open_with(ip, tcp, 0, now)
    }

    /// Builds the segment for `req` with at most `limit` bytes of payload,
    /// moves `send.nxt` past what it carries and restarts the timer. The
    /// datagram is handed back for the caller to send.
    fn write(&mut self, req: Request, limit: usize, now: u64) -> (datagram: Vec<u8>)
        ensures
            final(self)@ == old(self)@.emit(req, limit as nat, now),
            Some(datagram@) == old(self)@.reply(req, limit as nat, now, Action::Continue).datagram(),
    {
        let syn = match req {
            Request::SYN | Request::SYNACK => true,
            _ => false,
        };
        let fin = match req {
            Request::FIN => true,
            Request::ReTransmit => self.state == State::FinWait1 || self.state == State::LastAck,
            _ => false,
        };
        let again = match req {
            Request::ReTransmit => true,
            _ => false,
        };
        let header = TcpFields {
            source_port: self.pair.dst.1,
            destination_port: self.pair.src.1,
            sequence_number: if again {
                self.send.una
            } else {
                self.send.nxt
            },
            acknowledgment_number: self.recv.nxt,
            window_size: self.recv.wnd,
            syn,
            ack: match req {
                Request::SYN => false,
                _ => true,
            },
            fin,
            rst: match req {
                Request::RST => true,
                _ => false,
            },
        };
        let flight = self.send.nxt.wrapping_sub(self.send.una) as usize;
        let queued = self.outgoing.len();
        let sent = if flight <= queued {
            flight
        } else {
            queued
        };
        let room = if limit <= MAX_PAYLOAD {
            limit
        } else {
            MAX_PAYLOAD
        };
        let payload = match req {
            Request::ACK | Request::FIN => {
                let n = if queued - sent <= room {
                    queued - sent
                } else {
                    room
                };
                let bytes = copy_range(&self.outgoing, sent, sent + n);
                assert(bytes@ =~= self@.emit_payload(req, limit as nat));
                bytes
            },
            Request::ReTransmit => {
                let n = if sent <= room {
                    sent
                } else {
                    room
                };
                let bytes = copy_range(&self.outgoing, 0, n);
                assert(bytes@ =~= self@.emit_payload(req, limit as nat));
                bytes
            },
            _ => Vec::new(),
        };
        assert(payload@ =~= self@.emit_payload(req, limit as nat));
        let datagram = encode_segment(self.pair.dst.0, self.pair.src.0, &header, payload.as_slice());
        if !again {
            let mut occupied = payload.len();
            if syn {
                occupied += 1;
            }
            if fin {
                occupied += 1;
            }
            self.send.nxt = seq_add(self.send.nxt, occupied);
        }
        self.timers.send_times.insert(self.send.una, now);
        datagram
    }

    /// Emits a reset.
    pub fn send_rst(&mut self, now: u64) -> (datagram: Vec<u8>)
        ensures
            final(self)@ == old(self)@.emit(Request::RST, MAX_PAYLOAD as nat, now),
            Some(datagram@) == old(self)@.reply(
                Request::RST,
                MAX_PAYLOAD as nat,
                now,
                Action::Close,
            ).datagram(),
            old(self)@.wf() ==> final(self)@.wf(),
    {
        self.write(Request::RST, MAX_PAYLOAD, now)
    }

    /// The application closes the connection; our FIN follows with the
    /// next tick.
    pub fn close(&mut self)
        requires
            old(self)@.can_close(),
        ensures
            final(self)@ == old(self)@.close(),
            old(self)@.wf() ==> final(self)@.wf(),
    {
        self.closed = true;
        match self.state {
            State::Estab => {
                self.state = State::FinWait1;
            },
            State::CloseWait => {
                self.state = State::LastAck;
            },
            _ => {},
        }
    }

    /// Whether the application may close: `close` is for these states only.
    pub fn can_close(&self) -> (r: bool)
        ensures
            r == self@.can_close(),
    {
        self.state == State::Estab || self.state == State::CloseWait
    }

    /// Whether nothing more will arrive from the peer.
    pub fn is_recv_closed(&self) -> (r: bool)
        ensures
            r == self@.is_recv_closed(),
    {
        self.state == State::TimeWait || self.state == State::Closed
    }

    /// Whether the segment is acceptable: whether it touches the receive
    /// window.
    fn check_seq(&self, data: &[u8], tcp_header: &TcpFields) -> (ok: bool)
        ensures
            ok == acceptable(
                self@.recv,
                tcp_header.sequence_number,
                data_len(*tcp_header, data@.len() as int),
            ),
    {
        let seq = tcp_header.sequence_number;
        let start = self.recv.nxt.wrapping_sub(1);
        let wend = self.recv.nxt.wrapping_add(self.recv.wnd as u32);
        if data.len() == 0 && !tcp_header.syn && !tcp_header.fin {
            if self.recv.wnd == 0 {
                seq == self.recv.nxt
            } else {
                lt(start, seq) && lt(seq, wend)
            }
        } else if self.recv.wnd == 0 {
            false
        } else {
            let last = last_number(tcp_header, data.len());
            (lt(start, seq) && lt(seq, wend)) || (lt(start, last) && lt(last, wend))
        }
    }

    /// Takes out the timers of the numbers that `ackn` acknowledges and
    /// feeds the time the one that ran has taken into the round-trip
    /// estimate.
    fn update_srtt(&mut self, ackn: u32, now: u64)
        requires
            forall|k: u32| old(self)@.send_times.contains_key(k) ==> k == old(self)@.send.una,
            lt(old(self)@.send.una, ackn),
        ensures
            final(self)@ == (TcbView {
                send_times: old(self)@.send_times.remove_keys(
                    Set::new(|s: u32| segment_valid(old(self)@.send.una, s, ackn)),
                ),
                srtt: if old(self)@.send_times.contains_key(old(self)@.send.una) {
                    smooth(
                        old(self)@.srtt,
                        elapsed(now, old(self)@.send_times[old(self)@.send.una]),
                    )
                } else {
                    old(self)@.srtt
                },
                ..old(self)@
            }),
    {
        let una = self.send.una;
        match self.timers.send_times.remove(&una) {
            Some(sent) => {
                let sample: u64 = if now >= sent {
                    now - sent
                } else {
                    0
                };
                self.timers.srtt = ((4 * (self.timers.srtt as u128) + sample as u128) / 5) as u64;
            },
            None => {},
        }
        assert(self@.send_times =~= old(self)@.send_times.remove_keys(
            Set::new(|s: u32| segment_valid(old(self)@.send.una, s, ackn)),
        ));
    }

    /// An acknowledgment that advances: window, outgoing queue, timers and
    /// `send.una` follow it.
    fn acknowledge(&mut self, h: &TcpFields, now: u64)
        requires
            forall|k: u32| old(self)@.send_times.contains_key(k) ==> k == old(self)@.send.una,
            lt(old(self)@.send.una, h.acknowledgment_number),
        ensures
            final(self)@ == old(self)@.acknowledge(*h, now),
    {
        let ack = h.acknowledgment_number;
        if lt(self.send.wl1, h.sequence_number) || (self.send.wl1 == h.sequence_number && le(
            self.send.wl2,
            ack,
        )) {
            self.send.wnd = h.window_size;
            self.send.wl1 = h.sequence_number;
            self.send.wl2 = ack;
        }
        let acked = ack.wrapping_sub(self.send.una) as usize;
        let gone = if acked <= self.outgoing.len() {
            acked
        } else {
            self.outgoing.len()
        };
        drop_front(&mut self.outgoing, gone);
        self.update_srtt(ack, now);
        self.send.una = ack;
    }

    /// Text and FIN of an acceptable segment, and the one segment that
    /// answers them.
    fn on_text(&mut self, h: &TcpFields, data: &[u8], now: u64) -> (r: (Action, Option<Vec<u8>>))
        ensures
            final(self)@ == old(self)@.on_text(*h, data@, now).tcb,
            old(self)@.on_text(*h, data@, now).handed_back(r),
    {
        reveal(TcbView::on_text);
        let mut req: Option<Request> = None;
        let mut action = Action::Continue;
        let receiving = self.state == State::Estab || self.state == State::FinWait1 || self.state
            == State::FinWait2;
        if receiving && data.len() > 0 {
            let behind = self.recv.nxt.wrapping_sub(h.sequence_number) as usize;
            let offset = if behind <= data.len() {
                behind
            } else {
                0
            };
            append_range(&mut self.incoming, data, offset, data.len());
            self.recv.nxt = seq_add(self.recv.nxt, data.len() - offset);
            if offset < data.len() {
                action = Action::Read;
            }
            req = Some(Request::ACK);
            assert(data@.subrange(offset as int, data@.len() as int) =~= data@.skip(offset as int));
        }
        assert(self@.incoming =~= old(self)@.deliver(h.sequence_number, data@).incoming);
        assert(self@ == old(self)@.deliver(h.sequence_number, data@));
        if h.fin {
            let fin_acked = self.closed && match self.closed_at {
                Some(at) => lt(at, h.acknowledgment_number),
                None => false,
            };
            self.recv.nxt = self.recv.nxt.wrapping_add(1);
            req = Some(Request::ACK);
            match self.state {
                State::SynRcvd | State::Estab => {
                    self.closed = true;
                    self.state = State::LastAck;
                    self.closed_at = Some(self.send.una);
                    req = Some(Request::FIN);
                },
                State::FinWait1 => {
                    if fin_acked {
                        self.state = State::TimeWait;
                        self.timers.send_times.insert(self.send.una, now);
                    } else {
                        self.state = State::Closing;
                    }
                },
                State::FinWait2 => {
                    self.state = State::TimeWait;
                    self.timers.send_times.insert(self.send.una, now);
                },
                _ => {},
            }
            assert(self@ == old(self)@.deliver(h.sequence_number, data@).on_fin(*h, now));
        }
        match req {
            Some(kind) => {
                let datagram = self.write(kind, MAX_PAYLOAD, now);
                (action, Some(datagram))
            },
            None => (action, None),
        }
    }

    /// The acknowledgment of our FIN, if the segment is one, and what
    /// follows it.
    fn on_fin_ack(&mut self, h: &TcpFields, data: &[u8], now: u64) -> (r: (
        Action,
        Option<Vec<u8>>,
    ))
        ensures
            final(self)@ == old(self)@.on_fin_ack(*h, data@, now).tcb,
            old(self)@.on_fin_ack(*h, data@, now).handed_back(r),
    {
        reveal(TcbView::on_fin_ack);
        let fin_acked = self.closed && match self.closed_at {
            Some(at) => lt(at, h.acknowledgment_number),
            None => false,
        };
        if fin_acked {
            match self.state {
                State::FinWait1 => {
                    self.state = State::FinWait2;
                },
                State::Closing => {
                    self.state = State::TimeWait;
                    self.timers.send_times.insert(self.send.una, now);
                },
                State::LastAck => {
                    self.state = State::Closed;
                    return (Action::Close, None);
                },
                State::TimeWait => {
                    let datagram = self.write(Request::ACK, MAX_PAYLOAD, now);
                    return (Action::Continue, Some(datagram));
                },
                _ => {},
            }
        }
        self.on_text(h, data, now)
    }

    /// The acknowledgment field of an acceptable segment in a synchronized
    /// state, and what follows it.
    fn on_ack(&mut self, h: &TcpFields, data: &[u8], now: u64) -> (r: (Action, Option<Vec<u8>>))
        requires
            forall|k: u32| old(self)@.send_times.contains_key(k) ==> k == old(self)@.send.una,
        ensures
            final(self)@ == old(self)@.on_ack(*h, data@, now).tcb,
            old(self)@.on_ack(*h, data@, now).handed_back(r),
    {
        reveal(TcbView::on_ack);
        let ack = h.acknowledgment_number;
        let moving = match self.state {
            State::Estab | State::FinWait1 | State::FinWait2 | State::CloseWait
            | State::Closing => true,
            _ => false,
        };
        if moving && !lt(ack, self.send.una) && lt(self.send.nxt, ack) {
            let datagram = self.write(Request::ACK, MAX_PAYLOAD, now);
            return (Action::Continue, Some(datagram));
        }
        if moving && lt(self.send.una, ack) && le(ack, self.send.nxt) {
            self.acknowledge(h, now);
        }
        self.on_fin_ack(h, data, now)
    }

    /// Takes in a segment that arrived for this connection. `tcp_header`
    /// is its header, `data` its payload, `now` the time. Hands back what
    /// the caller has to do and, if the connection answers, the datagram to
    /// send.
    pub fn on_segment(&mut self, tcp_header: &TcpFields, data: &[u8], now: u64) -> (r: (
        Action,
        Option<Vec<u8>>,
    ))
        requires
            old(self)@.wf(),
        ensures
            final(self)@ == old(self)@.on_segment(*tcp_header, data@, now).tcb,
            old(self)@.on_segment(*tcp_header, data@, now).handed_back(r),
            final(self)@.wf(),
            !(r.0 is New),
            le(final(self)@.send.una, final(self)@.send.nxt),
    {
        proof {
            lemma_on_segment_wf(self@, *tcp_header, data@, now);
        }
        if self.state == State::Closed {
            if tcp_header.rst {
                return (Action::Close, None);
            }
            let datagram = self.write(Request::ACK, MAX_PAYLOAD, now);
            return (Action::Close, Some(datagram));
        }
        if !self.check_seq(data, tcp_header) {
            if tcp_header.rst {
                return (Action::Close, None);
            }
            let datagram = self.write(Request::ACK, MAX_PAYLOAD, now);
            return (Action::Continue, Some(datagram));
        }
        if tcp_header.rst {
            self.state = State::Closed;
            return (Action::Close, None);
        }
        if tcp_header.syn {
            let datagram = self.send_rst(now);
            self.state = State::Closed;
            return (Action::Close, Some(datagram));
        }
        if !tcp_header.ack {
            return (Action::Continue, None);
        }
        if self.state == State::SynRcvd {
            let ack = tcp_header.acknowledgment_number;
            if le(self.send.una, ack) && le(ack, self.send.nxt) {
                self.state = State::Estab;
            } else {
                let datagram = self.send_rst(now);
                return (Action::Close, Some(datagram));
            }
        }
        self.on_ack(tcp_header, data, now)
    }

    /// Lets the clock act on the connection. In TIME-WAIT it ends the
    /// connection once two seconds have passed since the state was entered,
    /// and does nothing before. In any other state it sends again what has
    /// waited too long, or sends the FIN that the application asked for, or
    /// sends queued bytes. Hands back what the caller has to do and, if the
    /// connection sends, the datagram.
    pub fn on_tick(&mut self, now: u64) -> (r: (Action, Option<Vec<u8>>))
        requires
            old(self)@.wf(),
        ensures
            final(self)@ == old(self)@.on_tick(now).tcb,
            old(self)@.on_tick(now).handed_back(r),
            final(self)@.wf(),
            r.0 is Close || r.0 is Continue,
            r.0 is Close <==> old(self)@.state is TimeWait && old(self)@.time_wait_over(now),
            old(self)@.state is TimeWait ==> final(self)@ == old(self)@ && r.1 is None,
            old(self)@.state is TimeWait ==> old(self)@.send_times.contains_key(
                old(self)@.send.una,
            ),
            final(self)@.send.nxt == old(self)@.send.nxt || !old(self)@.retransmit_due(now),
    {
        proof {
            lemma_on_tick_wf(self@, now);
        }
        let waited: Option<u64> = match self.timers.send_times.get(&self.send.una) {
            Some(sent) => Some(
                if now >= *sent {
                    now - *sent
                } else {
                    0
                },
            ),
            None => None,
        };
        if self.state == State::TimeWait {
            let over = match waited {
                Some(w) => w >= TIME_WAIT_LENGTH,
                None => false,
            };
            if over {
                return (Action::Close, None);
            }
            return (Action::Continue, None);
        }
        let due = match waited {
            Some(w) => w > MIN_RETRANSMIT_WAIT && 2 * (w as u128) > 3 * (self.timers.srtt as u128),
            None => false,
        };
        if due {
            let datagram = self.write(Request::ReTransmit, MAX_PAYLOAD, now);
            return (Action::Continue, Some(datagram));
        }
        if self.state == State::FinWait1 && self.closed_at.is_none() {
            self.closed_at = Some(self.send.una);
            let datagram = self.write(Request::FIN, MAX_PAYLOAD, now);
            return (Action::Continue, Some(datagram));
        }
        let flight = self.send.nxt.wrapping_sub(self.send.una) as usize;
        let queued = self.outgoing.len();
        if self.send.wnd as usize > queued && queued > flight {
            let allowed = self.send.wnd as usize - queued;
            let datagram = self.write(Request::ACK, allowed, now);
            return (Action::Continue, Some(datagram));
        }
        (Action::Continue, None)
    }

    /// Queues bytes of the application for sending: as many of the first
    /// bytes of `buf` as the outgoing queue has room for. Returns how many
    /// were taken.
    pub fn queue(&mut self, buf: &[u8]) -> (n: usize)
        requires
            old(self)@.wf(),
        ensures
            n == old(self)@.room_for(buf@.len() as int),
            final(self)@ == old(self)@.queue(buf@),
            final(self)@.wf(),
    {
        let room = OUTGOING_LIMIT - self.outgoing.len();
        let n = if buf.len() <= room {
            buf.len()
        } else {
            room
        };
        append_range(&mut self.outgoing, buf, 0, n);
        assert(buf@.subrange(0, n as int) =~= buf@.take(n as int));
        n
    }

    /// Hands the application the first bytes that wait to be read, at most
    /// `max` of them, and takes them off the incoming queue.
    pub fn consume(&mut self, max: usize) -> (out: Vec<u8>)
        ensures
            out@ == old(self)@.incoming.take(old(self)@.readable(max as int)),
            final(self)@ == old(self)@.consume(max as int),
            old(self)@.wf() ==> final(self)@.wf(),
    {
        let n = if self.incoming.len() <= max {
            self.incoming.len()
        } else {
            max
        };
        take_front(&mut self.incoming, n)
    }

    /// The four-tuple of the connection.
    pub fn pair(&self) -> (pair: SocketPair)
        ensures
            pair == self@.pair,
    {
        self.pair
    }

    /// The state of the connection.
    pub fn state(&self) -> (state: State)
        ensures
            state == self@.state,
    {
        self.state
    }

    /// The send sequence variables.
    pub fn send(&self) -> (send: SendSequenceSpace)
        ensures
            send == self@.send,
    {
        self.send
    }

    /// The receive sequence variables.
    pub fn recv(&self) -> (recv: RecvSequenceSpace)
        ensures
            recv == self@.recv,
    {
        self.recv
    }

    /// Whether the connection is shut down for writing.
    pub fn is_closed(&self) -> (closed: bool)
        ensures
            closed == self@.closed,
    {
        self.closed
    }

    /// The oldest unacknowledged number at the time our FIN was emitted,
    /// once it was.
    pub fn closed_at(&self) -> (at: Option<u32>)
        ensures
            at == self@.closed_at,
    {
        self.closed_at
    }

    /// The smoothed round-trip time, in microseconds.
    pub fn srtt(&self) -> (srtt: u64)
        ensures
            srtt == self@.srtt,
    {
        self.timers.srtt
    }

    /// When the segment that starts at `seq` was last sent, if its timer
    /// runs.
    pub fn send_time(&self, seq: u32) -> (sent: Option<u64>)
        ensures
            sent == (if self@.send_times.contains_key(seq) {
                Some(self@.send_times[seq])
            } else {
                None::<u64>
            }),
    {
        match self.timers.send_times.get(&seq) {
            Some(sent) => Some(*sent),
            None => None,
        }
    }

    /// How many bytes wait to be read.
    pub fn incoming_len(&self) -> (n: usize)
        ensures
            n == self@.incoming.len(),
    {
        self.incoming.len()
    }

    /// How many bytes are queued for sending or wait for their
    /// acknowledgment.
    pub fn outgoing_len(&self) -> (n: usize)
        ensures
            n == self@.outgoing.len(),
    {
        self.outgoing.len()
    }
}

} // verus!
