//! A connection as a mathematical value, and what each operation does to
//! it.
//!
//! The functions here are the statement of the protocol: what a segment,
//! a tick of the clock and the calls of the application do to a
//! connection, which segment is emitted, and which action is handed to
//! the caller. Time is a number of microseconds on a monotonic clock.

use crate::protocol::{
    Action, RecvSequenceSpace, Request, SendSequenceSpace, State, INITIAL_SRTT,
    MIN_RETRANSMIT_WAIT, OUTGOING_LIMIT, TIME_WAIT_LENGTH,
};
use crate::stream::SocketPair;
use crate::util::{gap, le, lemma_gap_seq_add, lt, segment_valid, spec_seq_add};
use crate::wire::{segment_bytes, TcpFields, MAX_PAYLOAD};
use vstd::prelude::*;

verus! {

/// A segment as the connection means it, before it is put on the wire.
pub struct Emitted {
    pub header: TcpFields,
    pub payload: Seq<u8>,
}

/// What an operation leaves behind: the connection after it, the action
/// for the caller, and the segment to send, if any.
pub struct Outcome {
    pub tcb: TcbView,
    pub action: Action,
    pub emitted: Option<Emitted>,
}

/// The time from `then` to `now`, none if the clock reads earlier.
pub open spec fn elapsed(now: u64, then: u64) -> u64 {
    if now >= then {
        (now - then) as u64
    } else {
        0
    }
}

/// The round-trip estimate after one more sample: four parts of the old
/// estimate to one part of the sample, rounded down.
pub open spec fn smooth(srtt: u64, sample: u64) -> u64 {
    ((4 * srtt + sample) / 5) as u64
}

/// A segment that has waited `waited` is sent again once that is more than
/// both the minimum wait and one and a half round trips.
pub open spec fn overdue(waited: u64, srtt: u64) -> bool {
    waited > MIN_RETRANSMIT_WAIT && 2 * waited > 3 * srtt
}

/// Sequence numbers that a segment occupies: its payload, and one each for
/// SYN and FIN.
pub open spec fn data_len(h: TcpFields, payload_len: int) -> int {
    payload_len + (if h.syn { 1int } else { 0 }) + (if h.fin { 1int } else { 0 })
}

/// The numbers that a segment has to touch to be looked at: those after
/// the one before the next expected number and before the end of the
/// receive window.
pub open spec fn in_receive_window(recv: RecvSequenceSpace, x: u32) -> bool {
    lt(recv.nxt.wrapping_sub(1), x) && lt(x, recv.nxt.wrapping_add(recv.wnd as u32))
}

/// Whether a segment numbered `seq` that occupies `data_len` numbers is
/// acceptable. With a closed window only an empty segment at the next
/// expected number is; with an open window an empty segment has to lie in
/// it, and any other has to start or end in it.
pub open spec fn acceptable(recv: RecvSequenceSpace, seq: u32, data_len: int) -> bool {
    if data_len == 0 {
        if recv.wnd == 0 {
            seq == recv.nxt
        } else {
            in_receive_window(recv, seq)
        }
    } else {
        recv.wnd > 0 && (in_receive_window(recv, seq) || in_receive_window(
            recv,
            spec_seq_add(seq, data_len - 1),
        ))
    }
}

/// States in which an acknowledgment moves the send variables.
pub open spec fn takes_acks(state: State) -> bool {
    state is Estab || state is FinWait1 || state is FinWait2 || state is CloseWait
        || state is Closing
}

/// States in which payload is delivered.
pub open spec fn takes_text(state: State) -> bool {
    state is Estab || state is FinWait1 || state is FinWait2
}

/// A connection as a mathematical value.
pub struct TcbView {
    pub state: State,
    pub send: SendSequenceSpace,
    pub recv: RecvSequenceSpace,
    /// the four-tuple: `src` the peer, `dst` this end
    pub pair: SocketPair,
    /// our side is shut down: the application asked for it, or the peer's
    /// FIN ended the connection
    pub closed: bool,
    /// the oldest unacknowledged number at the time our FIN was emitted
    pub closed_at: Option<u32>,
    /// when the segment that starts at a number was last sent
    pub send_times: Map<u32, u64>,
    /// smoothed round-trip time, in microseconds
    pub srtt: u64,
    /// bytes received in order and not yet read
    pub incoming: Seq<u8>,
    /// bytes written and not yet acknowledged, the first numbered `send.una`
    pub outgoing: Seq<u8>,
}

impl TcbView {
    /// Sequence numbers sent and not yet acknowledged.
    pub open spec fn flight(self) -> int {
        gap(self.send.una, self.send.nxt)
    }

    /// What holds of every connection between operations.
    ///
    /// The outgoing queue stays within its limit. Beyond the queued bytes
    /// at most a SYN and, once `closed_at` is set, a FIN are in flight.
    /// Timers are kept under the oldest unacknowledged number only, and in
    /// TIME-WAIT the timer runs. Until our FIN is emitted `closed_at` is
    /// unset; while the FIN waits for its acknowledgment the connection is
    /// marked closed and `closed_at` is that oldest number.
    pub open spec fn wf(self) -> bool {
        self.wf_base() && self.fin_at_una()
    }

    /// All of `wf` but its last part, on `closed_at` while the FIN waits.
    pub open spec fn wf_base(self) -> bool {
        &&& !(self.state is Listen)
        &&& self.outgoing.len() <= OUTGOING_LIMIT
        &&& self.flight() <= self.outgoing.len() + 1 + (if self.closed_at is Some {
            1int
        } else {
            0
        })
        &&& forall|k: u32| self.send_times.contains_key(k) ==> k == self.send.una
        &&& (self.state is SynRcvd || self.state is Estab || self.state is CloseWait)
            ==> self.closed_at is None
        &&& (self.state is FinWait1 || self.state is Closing || self.state is LastAck)
            ==> self.closed
        &&& self.state is TimeWait ==> self.send_times.contains_key(self.send.una)
    }

    /// While our FIN waits for its acknowledgment, `closed_at` is the
    /// oldest unacknowledged number.
    pub open spec fn fin_at_una(self) -> bool {
        (self.state is FinWait1 || self.state is Closing || self.state is LastAck) ==> (
        self.closed_at is Some ==> self.closed_at->0 == self.send.una)
    }

    /// Every byte in flight has its place in the outgoing queue.
    pub open spec fn backed(self) -> bool {
        self.flight() <= self.outgoing.len()
    }

    /// A connection just opened by a SYN, before anything is emitted.
    pub open spec fn opened(pair: SocketPair, syn: TcpFields, iss: u32) -> TcbView {
        TcbView {
            state: State::SynRcvd,
            send: SendSequenceSpace::starting_at(iss, syn.sequence_number, syn.window_size),
            recv: RecvSequenceSpace::starting_at(syn.sequence_number),
            pair,
            closed: false,
            closed_at: None,
            send_times: Map::empty(),
            srtt: INITIAL_SRTT,
            incoming: Seq::empty(),
            outgoing: Seq::empty(),
        }
    }

    /// The connection in another state.
    pub open spec fn with_state(self, state: State) -> TcbView {
        TcbView { state, ..self }
    }

    /// Starts the timer under the oldest unacknowledged number.
    pub open spec fn arm(self, now: u64) -> TcbView {
        TcbView { send_times: self.send_times.insert(self.send.una, now), ..self }
    }

    // ---------------------------------------------------------------
    // emission

    /// The header of the segment emitted for `req`.
    pub open spec fn emit_header(self, req: Request) -> TcpFields {
        TcpFields {
            source_port: self.pair.dst.1,
            destination_port: self.pair.src.1,
            sequence_number: if req is ReTransmit {
                self.send.una
            } else {
                self.send.nxt
            },
            acknowledgment_number: self.recv.nxt,
            window_size: self.recv.wnd,
            syn: req is SYN || req is SYNACK,
            ack: !(req is SYN),
            fin: req is FIN || (req is ReTransmit && (self.state is FinWait1
                || self.state is LastAck)),
            rst: req is RST,
        }
    }

    /// The payload of the segment emitted for `req`, at most `limit` bytes
    /// and at most what fits one datagram: nothing with SYN or RST, what was
    /// sent before when retransmitting, what was not sent yet otherwise.
    pub open spec fn emit_payload(self, req: Request, limit: nat) -> Seq<u8> {
        let sent = if self.flight() <= self.outgoing.len() {
            self.flight()
        } else {
            self.outgoing.len() as int
        };
        let chosen = if req is ACK || req is FIN {
            self.outgoing.skip(sent)
        } else if req is ReTransmit {
            self.outgoing.take(sent)
        } else {
            Seq::empty()
        };
        let room = if limit <= MAX_PAYLOAD {
            limit
        } else {
            MAX_PAYLOAD as nat
        };
        if chosen.len() <= room {
            chosen
        } else {
            chosen.take(room as int)
        }
    }

    /// The segment emitted for `req`.
    pub open spec fn emitted(self, req: Request, limit: nat) -> Emitted {
        Emitted { header: self.emit_header(req), payload: self.emit_payload(req, limit) }
    }

    /// The connection after emitting for `req`: `send.nxt` moves past what
    /// was sent, unless it was sent before, and the timer restarts.
    pub open spec fn emit(self, req: Request, limit: nat, now: u64) -> TcbView {
        let e = self.emitted(req, limit);
        let nxt = if req is ReTransmit {
            self.send.nxt
        } else {
            spec_seq_add(self.send.nxt, data_len(e.header, e.payload.len() as int))
        };
        TcbView { send: SendSequenceSpace { nxt, ..self.send }, ..self }.arm(now)
    }

    /// Emit for `req` and hand `action` to the caller.
    pub open spec fn reply(self, req: Request, limit: nat, now: u64, action: Action) -> Outcome {
        Outcome {
            tcb: self.emit(req, limit, now),
            action,
            emitted: Some(self.emitted(req, limit)),
        }
    }

    /// Emit nothing and hand `action` to the caller.
    pub open spec fn quiet(self, action: Action) -> Outcome {
        Outcome { tcb: self, action, emitted: None }
    }

    // ---------------------------------------------------------------
    // a segment arrives

    /// What a segment does to the connection. `h` is its header, `data`
    /// its payload, `now` the time of arrival.
    pub open spec fn on_segment(self, h: TcpFields, data: Seq<u8>, now: u64) -> Outcome {
        if self.state is Closed {
            if h.rst {
                self.quiet(Action::Close)
            } else {
                self.reply(Request::ACK, MAX_PAYLOAD as nat, now, Action::Close)
            }
        } else if !acceptable(self.recv, h.sequence_number, data_len(h, data.len() as int)) {
            if h.rst {
                self.quiet(Action::Close)
            } else {
                self.reply(Request::ACK, MAX_PAYLOAD as nat, now, Action::Continue)
            }
        } else if h.rst {
            self.with_state(State::Closed).quiet(Action::Close)
        } else if h.syn {
            Outcome {
                tcb: self.emit(Request::RST, MAX_PAYLOAD as nat, now).with_state(State::Closed),
                action: Action::Close,
                emitted: Some(self.emitted(Request::RST, MAX_PAYLOAD as nat)),
            }
        } else if !h.ack {
            self.quiet(Action::Continue)
        } else if self.state is SynRcvd {
            if le(self.send.una, h.acknowledgment_number) && le(
                h.acknowledgment_number,
                self.send.nxt,
            ) {
                self.with_state(State::Estab).on_ack(h, data, now)
            } else {
                self.reply(Request::RST, MAX_PAYLOAD as nat, now, Action::Close)
            }
        } else {
            self.on_ack(h, data, now)
        }
    }

    /// The acknowledgment is for something not sent yet.
    pub open spec fn ack_ahead(self, ack: u32) -> bool {
        takes_acks(self.state) && !lt(ack, self.send.una) && lt(self.send.nxt, ack)
    }

    /// The acknowledgment covers something new that was sent.
    pub open spec fn ack_advances(self, ack: u32) -> bool {
        takes_acks(self.state) && lt(self.send.una, ack) && le(ack, self.send.nxt)
    }

    /// The acknowledgment field of an acceptable segment in a synchronized
    /// state.
    #[verifier::opaque]
    pub open spec fn on_ack(self, h: TcpFields, data: Seq<u8>, now: u64) -> Outcome {
        if self.ack_ahead(h.acknowledgment_number) {
            self.reply(Request::ACK, MAX_PAYLOAD as nat, now, Action::Continue)
        } else if self.ack_advances(h.acknowledgment_number) {
            self.acknowledge(h, now).on_fin_ack(h, data, now)
        } else {
            self.on_fin_ack(h, data, now)
        }
    }

    /// The segment is newer than the one that last set the send window.
    pub open spec fn window_is_newer(self, h: TcpFields) -> bool {
        lt(self.send.wl1, h.sequence_number) || (self.send.wl1 == h.sequence_number && le(
            self.send.wl2,
            h.acknowledgment_number,
        ))
    }

    /// How many queued bytes an acknowledgment lets go.
    pub open spec fn acked_bytes(self, ack: u32) -> int {
        if gap(self.send.una, ack) <= self.outgoing.len() {
            gap(self.send.una, ack)
        } else {
            self.outgoing.len() as int
        }
    }

    /// The connection after an acknowledgment that advances: the send
    /// window follows a newer segment, acknowledged bytes leave the
    /// outgoing queue, the timers of acknowledged numbers are taken out and
    /// the round-trip estimate learns from the one that ran.
    pub open spec fn acknowledge(self, h: TcpFields, now: u64) -> TcbView {
        let ack = h.acknowledgment_number;
        let una = self.send.una;
        let newer = self.window_is_newer(h);
        TcbView {
            send: SendSequenceSpace {
                una: ack,
                wnd: if newer {
                    h.window_size
                } else {
                    self.send.wnd
                },
                wl1: if newer {
                    h.sequence_number
                } else {
                    self.send.wl1
                },
                wl2: if newer {
                    ack
                } else {
                    self.send.wl2
                },
                ..self.send
            },
            outgoing: self.outgoing.skip(self.acked_bytes(ack)),
            send_times: self.send_times.remove_keys(
                Set::new(|s: u32| segment_valid(una, s, ack)),
            ),
            srtt: if self.send_times.contains_key(una) {
                smooth(self.srtt, elapsed(now, self.send_times[una]))
            } else {
                self.srtt
            },
            ..self
        }
    }

    /// Our FIN was emitted and `ack` is past the number recorded for it.
    pub open spec fn fin_acked(self, ack: u32) -> bool {
        self.closed && self.closed_at is Some && lt(self.closed_at->0, ack)
    }

    /// The acknowledgment of our FIN, if this is one.
    #[verifier::opaque]
    pub open spec fn on_fin_ack(self, h: TcpFields, data: Seq<u8>, now: u64) -> Outcome {
        if self.fin_acked(h.acknowledgment_number) {
            if self.state is FinWait1 {
                self.with_state(State::FinWait2).on_text(h, data, now)
            } else if self.state is Closing {
                self.with_state(State::TimeWait).arm(now).on_text(h, data, now)
            } else if self.state is LastAck {
                self.with_state(State::Closed).quiet(Action::Close)
            } else if self.state is TimeWait {
                self.reply(Request::ACK, MAX_PAYLOAD as nat, now, Action::Continue)
            } else {
                self.on_text(h, data, now)
            }
        } else {
            self.on_text(h, data, now)
        }
    }

    /// How many leading bytes of a payload were received before: the gap
    /// from the segment's number to the next expected one, or none if that
    /// is more than the payload holds.
    pub open spec fn text_offset(self, seq: u32, len: int) -> int {
        if gap(seq, self.recv.nxt) <= len {
            gap(seq, self.recv.nxt)
        } else {
            0
        }
    }

    /// The bytes of a payload that are delivered.
    pub open spec fn accepted_text(self, seq: u32, data: Seq<u8>) -> Seq<u8> {
        if takes_text(self.state) {
            data.skip(self.text_offset(seq, data.len() as int))
        } else {
            Seq::empty()
        }
    }

    /// The connection after the payload is taken in.
    pub open spec fn deliver(self, seq: u32, data: Seq<u8>) -> TcbView {
        let accepted = self.accepted_text(seq, data);
        TcbView {
            incoming: self.incoming + accepted,
            recv: RecvSequenceSpace {
                nxt: spec_seq_add(self.recv.nxt, accepted.len() as int),
                ..self.recv
            },
            ..self
        }
    }

    /// The connection after the peer's FIN is taken in.
    pub open spec fn on_fin(self, h: TcpFields, now: u64) -> TcbView {
        let s = TcbView {
            recv: RecvSequenceSpace { nxt: spec_seq_add(self.recv.nxt, 1), ..self.recv },
            ..self
        };
        if self.state is SynRcvd || self.state is Estab {
            TcbView {
                closed: true,
                state: State::LastAck,
                closed_at: Some(self.send.una),
                ..s
            }
        } else if self.state is FinWait1 {
            if self.fin_acked(h.acknowledgment_number) {
                s.with_state(State::TimeWait).arm(now)
            } else {
                s.with_state(State::Closing)
            }
        } else if self.state is FinWait2 {
            s.with_state(State::TimeWait).arm(now)
        } else {
            s
        }
    }

    /// The segment that answers text and FIN, if one is due: our own FIN
    /// where the peer's FIN ends a connection that was open, else an ACK
    /// for a FIN or for payload in a state that takes payload.
    pub open spec fn answer(self, h: TcpFields, data: Seq<u8>) -> Option<Request> {
        if h.fin {
            if self.state is SynRcvd || self.state is Estab {
                Some(Request::FIN)
            } else {
                Some(Request::ACK)
            }
        } else if takes_text(self.state) && data.len() > 0 {
            Some(Request::ACK)
        } else {
            None
        }
    }

    /// Text and FIN of an acceptable segment.
    #[verifier::opaque]
    pub open spec fn on_text(self, h: TcpFields, data: Seq<u8>, now: u64) -> Outcome {
        let delivered = self.deliver(h.sequence_number, data);
        let after = if h.fin {
            delivered.on_fin(h, now)
        } else {
            delivered
        };
        let action = if self.accepted_text(h.sequence_number, data).len() > 0 {
            Action::Read
        } else {
            Action::Continue
        };
        match self.answer(h, data) {
            Some(req) => after.reply(req, MAX_PAYLOAD as nat, now, action),
            None => after.quiet(action),
        }
    }

    // ---------------------------------------------------------------
    // the clock ticks

    /// The oldest unacknowledged segment has waited long enough to be sent
    /// again.
    pub open spec fn retransmit_due(self, now: u64) -> bool {
        self.send_times.contains_key(self.send.una) && overdue(
            elapsed(now, self.send_times[self.send.una]),
            self.srtt,
        )
    }

    /// TIME-WAIT has lasted its full length. The time it was entered, or
    /// last started again, is kept under the oldest unacknowledged number.
    pub open spec fn time_wait_over(self, now: u64) -> bool {
        self.send_times.contains_key(self.send.una) && elapsed(
            now,
            self.send_times[self.send.una],
        ) >= TIME_WAIT_LENGTH
    }

    /// The peer's window has room beyond what is queued, and some of what
    /// is queued was not sent yet.
    pub open spec fn can_drain(self) -> bool {
        self.send.wnd > self.outgoing.len() && self.outgoing.len() > self.flight()
    }

    /// What a tick of the clock does to the connection. In TIME-WAIT the
    /// tick only watches the time since the state was entered: once that is
    /// the full length the connection is over, and until then nothing
    /// happens. In any other state the tick sends again what is overdue, or
    /// else sends the FIN that the application asked for, or else sends
    /// queued bytes that the peer's window has room for.
    pub open spec fn on_tick(self, now: u64) -> Outcome {
        if self.state is TimeWait {
            if self.time_wait_over(now) {
                self.quiet(Action::Close)
            } else {
                self.quiet(Action::Continue)
            }
        } else if self.retransmit_due(now) {
            self.reply(Request::ReTransmit, MAX_PAYLOAD as nat, now, Action::Continue)
        } else if self.state is FinWait1 && self.closed_at is None {
            TcbView { closed_at: Some(self.send.una), ..self }.reply(
                Request::FIN,
                MAX_PAYLOAD as nat,
                now,
                Action::Continue,
            )
        } else if self.can_drain() {
            self.reply(
                Request::ACK,
                (self.send.wnd - self.outgoing.len()) as nat,
                now,
                Action::Continue,
            )
        } else {
            self.quiet(Action::Continue)
        }
    }

    // ---------------------------------------------------------------
    // the application

    /// The application may close: the connection is open in its direction.
    pub open spec fn can_close(self) -> bool {
        self.state is Estab || self.state is CloseWait
    }

    /// The connection after the application closes it.
    pub open spec fn close(self) -> TcbView {
        TcbView {
            closed: true,
            state: if self.state is Estab {
                State::FinWait1
            } else if self.state is CloseWait {
                State::LastAck
            } else {
                self.state
            },
            ..self
        }
    }

    /// Nothing more will arrive from the peer.
    pub open spec fn is_recv_closed(self) -> bool {
        self.state is TimeWait || self.state is Closed
    }

    /// How many of `n` offered bytes the outgoing queue takes.
    pub open spec fn room_for(self, n: int) -> int {
        if self.outgoing.len() + n <= OUTGOING_LIMIT {
            n
        } else {
            OUTGOING_LIMIT - self.outgoing.len()
        }
    }

    /// The connection after the application queues the first bytes of
    /// `buf` that fit.
    pub open spec fn queue(self, buf: Seq<u8>) -> TcbView {
        TcbView { outgoing: self.outgoing + buf.take(self.room_for(buf.len() as int)), ..self }
    }

    /// How many bytes a read of at most `max` bytes takes.
    pub open spec fn readable(self, max: int) -> int {
        if self.incoming.len() <= max {
            self.incoming.len() as int
        } else {
            max
        }
    }

    /// The connection after the application reads at most `max` bytes.
    pub open spec fn consume(self, max: int) -> TcbView {
        TcbView { incoming: self.incoming.skip(self.readable(max)), ..self }
    }
}

impl Outcome {
    /// The datagram that carries the emitted segment from this end to the
    /// peer, if a segment was emitted.
    pub open spec fn datagram(self) -> Option<Seq<u8>> {
        match self.emitted {
            Some(e) => Some(
                segment_bytes(self.tcb.pair.dst.0, self.tcb.pair.src.0, e.header, e.payload),
            ),
            None => None,
        }
    }

    /// An operation that handed `r` back did what this outcome says.
    pub open spec fn handed_back(self, r: (Action, Option<Vec<u8>>)) -> bool {
        &&& r.0 == self.action
        &&& match self.datagram() {
            Some(d) => r.1 is Some && r.1->0@ == d,
            None => r.1 is None,
        }
    }
}

/// Emitting anything but a SYN or a FIN keeps a connection well formed.
pub proof fn lemma_emit_wf(v: TcbView, req: Request, limit: nat, now: u64)
    requires
        v.wf(),
        req is ACK || req is RST || req is ReTransmit,
    ensures
        v.emit(req, limit, now).wf(),
{
    let e = v.emitted(req, limit);
    lemma_gap_seq_add(v.send.una, v.send.nxt, data_len(e.header, e.payload.len() as int));
}

/// Text and FIN keep a connection well formed.
pub proof fn lemma_on_text_wf(v: TcbView, h: TcpFields, data: Seq<u8>, now: u64)
    requires
        v.wf(),
    ensures
        v.on_text(h, data, now).tcb.wf(),
        v.on_text(h, data, now).tcb.pair == v.pair,
        !(v.on_text(h, data, now).action is New),
{
    reveal(TcbView::on_text);
    let delivered = v.deliver(h.sequence_number, data);
    assert(delivered.wf());
    if h.fin {
        let after = delivered.on_fin(h, now);
        if v.state is SynRcvd || v.state is Estab {
            assert(after.emit(Request::FIN, MAX_PAYLOAD as nat, now).wf());
        } else {
            assert(after.wf());
            lemma_emit_wf(after, Request::ACK, MAX_PAYLOAD as nat, now);
        }
    } else if takes_text(v.state) && data.len() > 0 {
        lemma_emit_wf(delivered, Request::ACK, MAX_PAYLOAD as nat, now);
    }
}

/// The acknowledgment of our FIN and what follows keep a connection well
/// formed, also where an acknowledgment has just moved `send.una` past the
/// number recorded for the FIN.
pub proof fn lemma_on_fin_ack_wf(v: TcbView, h: TcpFields, data: Seq<u8>, now: u64)
    requires
        v.wf_base(),
        v.fin_at_una() || v.fin_acked(h.acknowledgment_number),
    ensures
        v.on_fin_ack(h, data, now).tcb.wf(),
        v.on_fin_ack(h, data, now).tcb.pair == v.pair,
        !(v.on_fin_ack(h, data, now).action is New),
{
    reveal(TcbView::on_fin_ack);
    if v.fin_acked(h.acknowledgment_number) {
        if v.state is FinWait1 {
            lemma_on_text_wf(v.with_state(State::FinWait2), h, data, now);
        } else if v.state is Closing {
            lemma_on_text_wf(v.with_state(State::TimeWait).arm(now), h, data, now);
        } else if v.state is LastAck {
        } else if v.state is TimeWait {
            lemma_emit_wf(v, Request::ACK, MAX_PAYLOAD as nat, now);
        } else {
            lemma_on_text_wf(v, h, data, now);
        }
    } else {
        lemma_on_text_wf(v, h, data, now);
    }
}

/// The acknowledgment field and what follows keep a connection well
/// formed.
pub proof fn lemma_on_ack_wf(v: TcbView, h: TcpFields, data: Seq<u8>, now: u64)
    requires
        v.wf(),
    ensures
        v.on_ack(h, data, now).tcb.wf(),
        v.on_ack(h, data, now).tcb.pair == v.pair,
        !(v.on_ack(h, data, now).action is New),
{
    reveal(TcbView::on_ack);
    let ack = h.acknowledgment_number;
    if v.ack_ahead(ack) {
        lemma_emit_wf(v, Request::ACK, MAX_PAYLOAD as nat, now);
    } else if v.ack_advances(ack) {
        let a = v.acknowledge(h, now);
        assert(forall|k: u32| !a.send_times.contains_key(k));
        lemma_on_fin_ack_wf(a, h, data, now);
    } else {
        lemma_on_fin_ack_wf(v, h, data, now);
    }
}

/// Taking in a segment keeps a connection well formed.
pub proof fn lemma_on_segment_wf(v: TcbView, h: TcpFields, data: Seq<u8>, now: u64)
    requires
        v.wf(),
    ensures
        v.on_segment(h, data, now).tcb.wf(),
        v.on_segment(h, data, now).tcb.pair == v.pair,
        !(v.on_segment(h, data, now).action is New),
{
    lemma_emit_wf(v, Request::ACK, MAX_PAYLOAD as nat, now);
    lemma_emit_wf(v, Request::RST, MAX_PAYLOAD as nat, now);
    lemma_on_ack_wf(v, h, data, now);
    if v.state is SynRcvd {
        lemma_on_ack_wf(v.with_state(State::Estab), h, data, now);
    }
}

/// A tick keeps a connection well formed.
pub proof fn lemma_on_tick_wf(v: TcbView, now: u64)
    requires
        v.wf(),
    ensures
        v.on_tick(now).tcb.wf(),
        v.on_tick(now).tcb.pair == v.pair,
{
}

} // verus!
