//! What holds of a connection whatever arrives: theorems about the model
//! of the transmission control block.

use crate::model::{
    acceptable, data_len, elapsed, lemma_on_segment_wf, lemma_on_tick_wf, TcbView,
};
use crate::protocol::{pair_of, Action, Request, State, TIME_WAIT_LENGTH};
use crate::stream::{
    lemma_get, lemma_key_names_one_pair, lemma_opened, lemma_put, lemma_without, spec_key,
    ManagerView, SocketPair,
};
use crate::util::{gap, le, lemma_gap_seq_add, lt, segment_valid, spec_seq_add};
use crate::wire::{datagram_parses, parsed, payload_of, TcpFields, MAX_PAYLOAD};
use vstd::prelude::*;

verus! {

/// In a well-formed connection the oldest unacknowledged number does not
/// come after the next one to send, and every timer is kept under a number
/// between the two.
pub proof fn lemma_una_before_nxt(v: TcbView)
    requires
        v.wf(),
    ensures
        le(v.send.una, v.send.nxt),
        forall|k: u32| #[trigger]
            v.send_times.contains_key(k) ==> le(v.send.una, k) && le(k, v.send.nxt),
{
}

/// After every segment the oldest unacknowledged number does not come
/// after the next one to send. If every number in flight had its byte in
/// the outgoing queue before, it has after, as long as our FIN is not under
/// way.
pub proof fn lemma_segment_keeps_flight_backed(v: TcbView, h: TcpFields, data: Seq<u8>, now: u64)
    requires
        v.wf(),
    ensures
        le(v.on_segment(h, data, now).tcb.send.una, v.on_segment(h, data, now).tcb.send.nxt),
        v.backed() && !v.on_segment(h, data, now).tcb.closed ==> v.on_segment(
            h,
            data,
            now,
        ).tcb.backed(),
{
    lemma_on_segment_wf(v, h, data, now);
    if v.backed() {
        lemma_segment_backed(v, h, data, now);
    }
}

/// The acknowledgment that completes the handshake by covering our SYN
/// leaves every number in flight with its byte in the outgoing queue.
pub proof fn lemma_handshake_backs_flight(v: TcbView, h: TcpFields, data: Seq<u8>, now: u64)
    requires
        v.wf(),
        v.state is SynRcvd,
        acceptable(v.recv, h.sequence_number, data_len(h, data.len() as int)),
        h.ack && !h.rst && !h.syn && !h.fin,
        h.acknowledgment_number == v.send.nxt,
        v.flight() > 0,
    ensures
        v.on_segment(h, data, now).tcb.state is Estab,
        v.on_segment(h, data, now).tcb.backed(),
{
    reveal(TcbView::on_ack);
    reveal(TcbView::on_fin_ack);
    reveal(TcbView::on_text);
    let e = v.with_state(State::Estab);
    let a = e.acknowledge(h, now);
    assert(a.flight() == 0);
    let d = a.deliver(h.sequence_number, data);
    lemma_emit_backed(d, Request::ACK, MAX_PAYLOAD as nat, now);
}

/// A tick leaves every number in flight with its byte in the outgoing
/// queue if it was so before, unless it is the tick that emits our FIN.
pub proof fn lemma_tick_keeps_flight_backed(v: TcbView, now: u64)
    requires
        v.wf(),
    ensures
        le(v.on_tick(now).tcb.send.una, v.on_tick(now).tcb.send.nxt),
        v.backed() && !(v.state is FinWait1 && v.closed_at is None) ==> v.on_tick(now).tcb.backed(),
{
    lemma_on_tick_wf(v, now);
    if v.backed() && !(v.state is FinWait1 && v.closed_at is None) {
        lemma_emit_backed(v, Request::ReTransmit, MAX_PAYLOAD as nat, now);
        lemma_emit_backed(v, Request::ACK, (v.send.wnd - v.outgoing.len()) as nat, now);
    }
}

proof fn lemma_emit_backed(v: TcbView, req: Request, limit: nat, now: u64)
    requires
        v.wf(),
        v.backed(),
        req is ACK || req is RST || req is ReTransmit,
    ensures
        v.emit(req, limit, now).backed(),
        v.emit(req, limit, now).closed == v.closed,
{
    let e = v.emitted(req, limit);
    lemma_gap_seq_add(v.send.una, v.send.nxt, data_len(e.header, e.payload.len() as int));
}

proof fn lemma_text_backed(v: TcbView, h: TcpFields, data: Seq<u8>, now: u64)
    requires
        v.wf(),
        v.backed(),
    ensures
        !v.on_text(h, data, now).tcb.closed ==> v.on_text(h, data, now).tcb.backed(),
{
    reveal(TcbView::on_text);
    let d = v.deliver(h.sequence_number, data);
    if h.fin {
        let after = d.on_fin(h, now);
        if !(v.state is SynRcvd || v.state is Estab) {
            assert(after.wf());
            lemma_emit_backed(after, Request::ACK, MAX_PAYLOAD as nat, now);
        }
    } else {
        lemma_emit_backed(d, Request::ACK, MAX_PAYLOAD as nat, now);
    }
}

proof fn lemma_fin_ack_backed(v: TcbView, h: TcpFields, data: Seq<u8>, now: u64)
    requires
        v.wf_base(),
        v.fin_at_una() || v.fin_acked(h.acknowledgment_number),
        v.backed(),
    ensures
        !v.on_fin_ack(h, data, now).tcb.closed ==> v.on_fin_ack(h, data, now).tcb.backed(),
{
    reveal(TcbView::on_fin_ack);
    if v.fin_acked(h.acknowledgment_number) {
        if v.state is FinWait1 {
            lemma_text_backed(v.with_state(State::FinWait2), h, data, now);
        } else if v.state is Closing {
            lemma_text_backed(v.with_state(State::TimeWait).arm(now), h, data, now);
        } else if v.state is LastAck {
        } else if v.state is TimeWait {
            lemma_emit_backed(v, Request::ACK, MAX_PAYLOAD as nat, now);
        } else {
            lemma_text_backed(v, h, data, now);
        }
    } else {
        lemma_text_backed(v, h, data, now);
    }
}

proof fn lemma_segment_backed(v: TcbView, h: TcpFields, data: Seq<u8>, now: u64)
    requires
        v.wf(),
        v.backed(),
    ensures
        !v.on_segment(h, data, now).tcb.closed ==> v.on_segment(h, data, now).tcb.backed(),
{
    reveal(TcbView::on_ack);
    lemma_emit_backed(v, Request::ACK, MAX_PAYLOAD as nat, now);
    lemma_emit_backed(v, Request::RST, MAX_PAYLOAD as nat, now);
    let ack = h.acknowledgment_number;
    let w = if v.state is SynRcvd {
        v.with_state(State::Estab)
    } else {
        v
    };
    lemma_emit_backed(w, Request::ACK, MAX_PAYLOAD as nat, now);
    if w.ack_advances(ack) {
        let a = w.acknowledge(h, now);
        assert(forall|k: u32| !a.send_times.contains_key(k));
        lemma_fin_ack_backed(a, h, data, now);
    } else {
        lemma_fin_ack_backed(w, h, data, now);
    }
}

/// The next number expected from the peer only moves forward, by no more
/// than the segment occupies; the peer's initial number stays.
pub proof fn lemma_segment_moves_recv_forward(v: TcbView, h: TcpFields, data: Seq<u8>, now: u64)
    ensures
        v.on_segment(h, data, now).tcb.recv.irs == v.recv.irs,
        v.on_segment(h, data, now).tcb.recv.wnd == v.recv.wnd,
        gap(v.recv.nxt, v.on_segment(h, data, now).tcb.recv.nxt) <= data.len() + 1,
{
    lemma_segment_delivery(v, h, data, now);
}

/// Once a connection is opened the next number expected from the peer is
/// at least one past the peer's initial number, and a segment keeps it so
/// for as long as the numbers received do not go once round the circle.
pub proof fn lemma_recv_past_initial(v: TcbView, h: TcpFields, data: Seq<u8>, now: u64)
    requires
        gap(v.recv.irs, v.recv.nxt) >= 1,
        gap(v.recv.irs, v.recv.nxt) + data.len() + 1 < 0x1_0000_0000,
    ensures
        gap(v.on_segment(h, data, now).tcb.recv.irs, v.on_segment(h, data, now).tcb.recv.nxt)
            >= gap(v.recv.irs, v.recv.nxt),
        gap(v.on_segment(h, data, now).tcb.recv.irs, v.on_segment(h, data, now).tcb.recv.nxt)
            >= 1,
{
    lemma_segment_moves_recv_forward(v, h, data, now);
}

/// A connection starts one past the peer's initial number.
pub proof fn lemma_opened_past_initial(pair: SocketPair, syn: TcpFields, iss: u32)
    ensures
        gap(TcbView::opened(pair, syn, iss).recv.irs, TcbView::opened(pair, syn, iss).recv.nxt)
            == 1,
{
}

/// Whatever is emitted, the timer under the oldest unacknowledged number
/// runs afterwards; and where the emission is new and occupies sequence
/// numbers, something is unacknowledged afterwards.
pub proof fn lemma_emission_starts_timer(v: TcbView, req: Request, limit: nat, now: u64)
    requires
        v.wf(),
    ensures
        v.emit(req, limit, now).send_times.contains_key(v.emit(req, limit, now).send.una),
        !(req is ReTransmit) && data_len(
            v.emit_header(req),
            v.emit_payload(req, limit).len() as int,
        ) > 0 ==> v.emit(req, limit, now).flight() > 0,
{
    let e = v.emitted(req, limit);
    lemma_gap_seq_add(v.send.una, v.send.nxt, data_len(e.header, e.payload.len() as int));
}

/// TIME-WAIT ends by the clock. A connection in TIME-WAIT has the time it
/// entered the state, or last started the wait again, under its oldest
/// unacknowledged number. A tick leaves the connection as it is and sends
/// nothing; it says that the connection is over exactly when the full
/// length of TIME-WAIT has passed since that time.
pub proof fn lemma_time_wait_ends(v: TcbView, now: u64)
    requires
        v.wf(),
        v.state is TimeWait,
    ensures
        v.send_times.contains_key(v.send.una),
        v.on_tick(now).tcb == v,
        v.on_tick(now).emitted is None,
        v.on_tick(now).action is Close <==> elapsed(now, v.send_times[v.send.una])
            >= TIME_WAIT_LENGTH,
        v.on_tick(now).action is Close || v.on_tick(now).action is Continue,
{
}

/// A tick ends no connection but one in TIME-WAIT, and hands the caller
/// nothing but "over" or "nothing to do".
pub proof fn lemma_tick_ends_time_wait_only(v: TcbView, now: u64)
    ensures
        v.on_tick(now).action is Close ==> v.state is TimeWait && v.time_wait_over(now),
        v.on_tick(now).action is Close || v.on_tick(now).action is Continue,
{
}

/// What an acknowledgment that advances does to the timers, whatever
/// numbers they stand under between the oldest unacknowledged one and the
/// next to send: no timer is left under a number before the
/// acknowledgment, none is added, and those that stay keep their time. If
/// all that was sent is acknowledged, a timer can only be left under the
/// next number to send.
pub proof fn lemma_acknowledged_timers_leave(v: TcbView, h: TcpFields, now: u64)
    requires
        forall|k: u32| #[trigger]
            v.send_times.contains_key(k) ==> le(v.send.una, k) && le(k, v.send.nxt),
        lt(v.send.una, h.acknowledgment_number),
        le(h.acknowledgment_number, v.send.nxt),
    ensures
        forall|k: u32| #[trigger]
            v.acknowledge(h, now).send_times.contains_key(k) ==> {
                &&& v.send_times.contains_key(k)
                &&& v.acknowledge(h, now).send_times[k] == v.send_times[k]
                &&& !lt(k, h.acknowledgment_number)
                &&& le(k, v.send.nxt)
            },
        forall|k: u32|
            v.send_times.contains_key(k) && !segment_valid(
                v.send.una,
                k,
                h.acknowledgment_number,
            ) ==> #[trigger] v.acknowledge(h, now).send_times.contains_key(k),
        h.acknowledgment_number == v.send.nxt ==> forall|k: u32| #[trigger]
            v.acknowledge(h, now).send_times.contains_key(k) ==> k == v.send.nxt,
        v.acknowledge(h, now).send.una == h.acknowledgment_number,
{
}

/// An acknowledgment of all that was sent leaves nothing unacknowledged
/// and no timer running.
pub proof fn lemma_full_ack_stops_timer(v: TcbView, h: TcpFields, now: u64)
    requires
        v.wf(),
        v.ack_advances(h.acknowledgment_number),
        h.acknowledgment_number == v.send.nxt,
    ensures
        v.acknowledge(h, now).flight() == 0,
        v.acknowledge(h, now).send_times =~= Map::empty(),
{
}

/// `after` is `v` with nothing delivered, or with the payload delivered
/// from the offset at which new bytes start, and with the next expected
/// number moved past what was delivered and past a FIN.
pub open spec fn delivered(v: TcbView, after: TcbView, h: TcpFields, data: Seq<u8>) -> bool {
    let fresh = data.skip(v.text_offset(h.sequence_number, data.len() as int));
    &&& after.recv.irs == v.recv.irs
    &&& after.recv.wnd == v.recv.wnd
    &&& {
        ||| after.incoming == v.incoming && after.recv.nxt == v.recv.nxt
        ||| after.incoming == v.incoming && after.recv.nxt == spec_seq_add(v.recv.nxt, 1)
        ||| after.incoming == v.incoming + fresh && after.recv.nxt == spec_seq_add(
            v.recv.nxt,
            fresh.len() as int,
        )
        ||| after.incoming == v.incoming + fresh && after.recv.nxt == spec_seq_add(
            v.recv.nxt,
            fresh.len() as int + 1,
        )
    }
}

proof fn lemma_text_delivery(v: TcbView, h: TcpFields, data: Seq<u8>, now: u64)
    ensures
        delivered(v, v.on_text(h, data, now).tcb, h, data),
{
    reveal(TcbView::on_text);
    let fresh = data.skip(v.text_offset(h.sequence_number, data.len() as int));
    crate::util::lemma_seq_add_twice(v.recv.nxt, fresh.len() as int, 1);
    assert(v.incoming + Seq::<u8>::empty() =~= v.incoming);
    assert(spec_seq_add(v.recv.nxt, 0) == v.recv.nxt);
    let d = v.deliver(h.sequence_number, data);
    assert(delivered(v, d, h, data));
    if h.fin {
        assert(delivered(v, d.on_fin(h, now), h, data));
    }
}

proof fn lemma_fin_ack_delivery(v: TcbView, h: TcpFields, data: Seq<u8>, now: u64)
    ensures
        delivered(v, v.on_fin_ack(h, data, now).tcb, h, data),
{
    reveal(TcbView::on_fin_ack);
    lemma_text_delivery(v, h, data, now);
    lemma_text_delivery(v.with_state(State::FinWait2), h, data, now);
    lemma_text_delivery(v.with_state(State::TimeWait).arm(now), h, data, now);
}

proof fn lemma_ack_delivery(v: TcbView, h: TcpFields, data: Seq<u8>, now: u64)
    ensures
        delivered(v, v.on_ack(h, data, now).tcb, h, data),
{
    reveal(TcbView::on_ack);
    lemma_fin_ack_delivery(v, h, data, now);
    lemma_fin_ack_delivery(v.acknowledge(h, now), h, data, now);
}

/// What a segment adds to the bytes that wait to be read: nothing, or its
/// payload from the offset at which new bytes start.
pub proof fn lemma_segment_delivery(v: TcbView, h: TcpFields, data: Seq<u8>, now: u64)
    ensures
        delivered(v, v.on_segment(h, data, now).tcb, h, data),
{
    lemma_ack_delivery(v, h, data, now);
    lemma_ack_delivery(v.with_state(State::Estab), h, data, now);
}

/// Bytes are delivered in the order in which the peer sent them. Let
/// `stream` be all the peer sends, and let the bytes read so far together
/// with those that wait to be read be its first `at` bytes. A segment that
/// carries the bytes of the stream at its own place, and that starts no
/// later than the next byte expected, leaves read and waiting bytes a
/// prefix of the stream again.
pub proof fn lemma_delivery_in_order(
    v: TcbView,
    h: TcpFields,
    data: Seq<u8>,
    now: u64,
    stream: Seq<u8>,
    read: Seq<u8>,
    at: int,
)
    requires
        0 <= at <= stream.len(),
        read + v.incoming == stream.take(at),
        gap(h.sequence_number, v.recv.nxt) <= data.len(),
        gap(h.sequence_number, v.recv.nxt) <= at,
        at - gap(h.sequence_number, v.recv.nxt) + data.len() <= stream.len(),
        data == stream.subrange(
            at - gap(h.sequence_number, v.recv.nxt),
            at - gap(h.sequence_number, v.recv.nxt) + data.len(),
        ),
    ensures
        ({
            let after = v.on_segment(h, data, now).tcb;
            let more = after.incoming.len() - v.incoming.len();
            &&& 0 <= more
            &&& at + more <= stream.len()
            &&& read + after.incoming == stream.take(at + more)
        }),
{
    lemma_segment_delivery(v, h, data, now);
    let after = v.on_segment(h, data, now).tcb;
    let behind = gap(h.sequence_number, v.recv.nxt);
    let fresh = data.skip(behind);
    if after.incoming == v.incoming {
        assert(read + after.incoming =~= stream.take(at));
    } else {
        assert(read + (v.incoming + fresh) =~= (read + v.incoming) + fresh);
        assert(stream.take(at) + fresh =~= stream.take(at + fresh.len()));
    }
}

/// Reading hands out the bytes that waited longest and keeps the rest in
/// order: what was read together with what waits is what it was.
pub proof fn lemma_read_in_order(v: TcbView, max: int, read: Seq<u8>)
    requires
        0 <= max,
    ensures
        (read + v.incoming.take(v.readable(max))) + v.consume(max).incoming == read + v.incoming,
{
    let n = v.readable(max);
    assert((read + v.incoming.take(n)) + v.incoming.skip(n) =~= read + v.incoming);
}

/// A duplicate acknowledgment changes nothing. The segment is acceptable
/// and carries an acknowledgment at or before the oldest unacknowledged
/// number, no payload and no other flag; the connection is synchronized
/// and not one that answers the repeated acknowledgment of its FIN in
/// TIME-WAIT. Then the connection stays as it is, nothing is emitted, and
/// the caller has nothing to do.
pub proof fn lemma_duplicate_ack_is_idle(v: TcbView, h: TcpFields, now: u64)
    requires
        v.wf(),
        !(v.state is SynRcvd) && !(v.state is Closed),
        !(v.state is TimeWait && v.fin_acked(h.acknowledgment_number)),
        acceptable(v.recv, h.sequence_number, 0),
        h.ack && !h.syn && !h.fin && !h.rst,
        le(h.acknowledgment_number, v.send.una),
    ensures
        v.on_segment(h, Seq::empty(), now) == v.quiet(Action::Continue),
{
    reveal(TcbView::on_ack);
    reveal(TcbView::on_fin_ack);
    reveal(TcbView::on_text);
    let data = Seq::<u8>::empty();
    let d = v.deliver(h.sequence_number, data);
    assert(d.incoming =~= v.incoming);
    assert(d == v);
}

/// A connection opened by a SYN is well formed once its SYN+ACK is
/// emitted, and it keeps the four-tuple it was opened for.
pub proof fn lemma_opened_wf(pair: SocketPair, syn: TcpFields, iss: u32, now: u64)
    ensures
        TcbView::opened(pair, syn, iss).emit(Request::SYNACK, MAX_PAYLOAD as nat, now).wf(),
        TcbView::opened(pair, syn, iss).emit(Request::SYNACK, MAX_PAYLOAD as nat, now).pair
            == pair,
{
    let v = TcbView::opened(pair, syn, iss);
    lemma_gap_seq_add(v.send.una, v.send.nxt, 1);
}

/// No datagram makes the table hold two connections with one four-tuple,
/// and none leaves a connection in it that is not well formed, or one in
/// a queue that is not in the table.
pub proof fn lemma_datagram_keeps_table(m: ManagerView, bytes: Seq<u8>, now: u64)
    requires
        m.wf(),
    ensures
        m.on_datagram(bytes, now).manager.wf(),
{
    if datagram_parses(bytes) {
        let p = parsed(bytes);
        let pair = pair_of(&p.ip, &p.tcp);
        if m.has(pair) {
            let o = m.get(pair).on_segment(p.tcp, payload_of(bytes), now);
            lemma_get(m, pair);
            lemma_on_segment_wf(m.get(pair), p.tcp, payload_of(bytes), now);
            lemma_without(m, pair);
            lemma_put(m, pair, o.tcb);
        } else if m.pending.contains_key(p.tcp.destination_port) && p.tcp.syn {
            lemma_opened_wf(pair, p.tcp, 0, now);
            let fresh = TcbView::opened(pair, p.tcp, 0).emit(
                Request::SYNACK,
                MAX_PAYLOAD as nat,
                now,
            );
            lemma_opened(m, pair, fresh, p.tcp.destination_port);
        }
    }
}

/// At any time the table holds at most one connection for a four-tuple:
/// whatever datagram arrives, two connections of the table after it that
/// have one four-tuple are one connection.
pub proof fn lemma_one_connection_after_datagram(
    m: ManagerView,
    bytes: Seq<u8>,
    now: u64,
    a: u128,
    b: u128,
)
    requires
        m.wf(),
        m.on_datagram(bytes, now).manager.connections.contains_key(a),
        m.on_datagram(bytes, now).manager.connections.contains_key(b),
        m.on_datagram(bytes, now).manager.connections[a].pair == m.on_datagram(
            bytes,
            now,
        ).manager.connections[b].pair,
    ensures
        a == b,
{
    lemma_datagram_keeps_table(m, bytes, now);
}

/// A repeated first SYN opens at most one connection. The first SYN of a
/// four-tuple for a bound port opens a connection under that four-tuple
/// and no other. The same datagram once more finds that connection and
/// opens no other: the table then holds no connection that it did not
/// hold after the first.
pub proof fn lemma_repeated_syn_opens_once(m: ManagerView, bytes: Seq<u8>, first: u64, again: u64)
    requires
        m.wf(),
        datagram_parses(bytes),
        parsed(bytes).tcp.syn,
        m.pending.contains_key(parsed(bytes).tcp.destination_port),
        !m.has(pair_of(&parsed(bytes).ip, &parsed(bytes).tcp)),
    ensures
        ({
            let pair = pair_of(&parsed(bytes).ip, &parsed(bytes).tcp);
            let one = m.on_datagram(bytes, first);
            let two = one.manager.on_datagram(bytes, again);
            &&& one.manager.wf()
            &&& one.action == Some(Action::New)
            &&& one.manager.connections.dom() == m.connections.dom().insert(spec_key(pair))
            &&& one.manager.get(pair).pair == pair
            &&& two.manager.wf()
            &&& !(two.action == Some(Action::New))
            &&& two.manager.connections.dom().subset_of(one.manager.connections.dom())
        }),
{
    let p = parsed(bytes);
    let pair = pair_of(&p.ip, &p.tcp);
    let one = m.on_datagram(bytes, first);
    lemma_datagram_keeps_table(m, bytes, first);
    lemma_datagram_keeps_table(one.manager, bytes, again);
    lemma_opened_wf(pair, p.tcp, 0, first);
    assert(one.manager.connections.dom() =~= m.connections.dom().insert(spec_key(pair)));
    lemma_get(one.manager, pair);
    lemma_on_segment_wf(one.manager.get(pair), p.tcp, payload_of(bytes), again);
}

/// A repeated first SYN that carries nothing else is answered and changes
/// nothing else: the connection that the first one opened stays, with the
/// state and the sequence variables it had, and so does every other.
pub proof fn lemma_repeated_syn_is_idle(m: ManagerView, bytes: Seq<u8>, first: u64, again: u64)
    requires
        m.wf(),
        datagram_parses(bytes),
        parsed(bytes).tcp.syn && !parsed(bytes).tcp.fin && !parsed(bytes).tcp.rst,
        payload_of(bytes).len() == 0,
        m.pending.contains_key(parsed(bytes).tcp.destination_port),
        !m.has(pair_of(&parsed(bytes).ip, &parsed(bytes).tcp)),
    ensures
        ({
            let pair = pair_of(&parsed(bytes).ip, &parsed(bytes).tcp);
            let one = m.on_datagram(bytes, first);
            let two = one.manager.on_datagram(bytes, again);
            let opened = one.manager.get(pair);
            &&& two.action == Some(Action::Continue)
            &&& two.manager.pending == one.manager.pending
            &&& two.manager.connections == one.manager.connections.insert(
                spec_key(pair),
                opened.emit(Request::ACK, MAX_PAYLOAD as nat, again),
            )
            &&& opened.emit(Request::ACK, MAX_PAYLOAD as nat, again).state == opened.state
            &&& opened.emit(Request::ACK, MAX_PAYLOAD as nat, again).send == opened.send
            &&& opened.emit(Request::ACK, MAX_PAYLOAD as nat, again).recv == opened.recv
        }),
{
    let p = parsed(bytes);
    let pair = pair_of(&p.ip, &p.tcp);
    let one = m.on_datagram(bytes, first);
    let fresh = one.manager.get(pair);
    let data = payload_of(bytes);
    assert(!acceptable(fresh.recv, p.tcp.sequence_number, data_len(p.tcp, data.len() as int)));
    assert(fresh.emit_payload(Request::ACK, MAX_PAYLOAD as nat).len() == 0);
    assert(spec_seq_add(fresh.send.nxt, 0) == fresh.send.nxt);
}

} // verus!
