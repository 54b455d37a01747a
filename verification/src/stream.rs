//! The table of connections and the handles the application holds.
//!
//! The table is what the demultiplexer and the application share. Whoever
//! holds it exclusively may act on it; taking turns, waiting and waking
//! are the caller's part. An operation that would wait says so in its
//! result and leaves the table as it is.

use crate::model::{lemma_on_segment_wf, lemma_on_tick_wf, TcbView};
use crate::protocol::{pair_of, Action, Request, OUTGOING_LIMIT, TCB};
use crate::wire::{
    datagram_parses, parse_datagram, parsed, payload_of, Ipv4Fields, TcpFields, MAX_PAYLOAD,
};
use std::collections::HashMap;
use std::collections::VecDeque;
use vstd::prelude::*;
use vstd::std_specs::iter::IteratorSpec;

verus! {

/// The four-tuple that names a connection: the remote end in `src`, the
/// local end in `dst`, each an address and a port. Addresses are the four
/// address bytes read as one big-endian number.
#[derive(Clone, Copy, Debug, PartialEq, Eq, Hash)]
pub struct SocketPair {
    pub src: (u32, u16),
    pub dst: (u32, u16),
}

impl SocketPair {
    /// Whether two four-tuples name the same connection.
    pub fn same(&self, other: &SocketPair) -> (r: bool)
        ensures
            r == (*self == *other),
    {
        self.src.0 == other.src.0 && self.src.1 == other.src.1 && self.dst.0 == other.dst.0
            && self.dst.1 == other.dst.1
    }

    /// The four-tuple as one number, the key under which the table holds
    /// its connection.
    pub fn key(&self) -> (k: u128)
        ensures
            k == spec_key(*self),
    {
        ((self.src.0 as u128 * 0x1_0000 + self.src.1 as u128) * 0x1_0000_0000 + self.dst.0 as u128)
            * 0x1_0000 + self.dst.1 as u128
    }
}

/// A four-tuple as one number of 96 bits: remote address, remote port,
/// local address, local port, from the highest bits down.
pub open spec fn spec_key(pair: SocketPair) -> u128 {
    (((pair.src.0 as int * 0x1_0000 + pair.src.1 as int) * 0x1_0000_0000 + pair.dst.0 as int)
        * 0x1_0000 + pair.dst.1 as int) as u128
}

/// A number written as digits to a base has one way to be written.
proof fn lemma_digits(x1: int, y1: int, x2: int, y2: int, base: int)
    requires
        0 <= y1 < base,
        0 <= y2 < base,
        x1 * base + y1 == x2 * base + y2,
    ensures
        x1 == x2,
        y1 == y2,
{
    assert(x1 == x2) by (nonlinear_arith)
        requires
            0 <= y1 < base,
            0 <= y2 < base,
            x1 * base + y1 == x2 * base + y2,
    ;
}

/// Two four-tuples with one key are one four-tuple.
pub proof fn lemma_key_names_one_pair(a: SocketPair, b: SocketPair)
    requires
        spec_key(a) == spec_key(b),
    ensures
        a == b,
{
    let sa = a.src.0 as int * 0x1_0000 + a.src.1 as int;
    let sb = b.src.0 as int * 0x1_0000 + b.src.1 as int;
    let ra = sa * 0x1_0000_0000 + a.dst.0 as int;
    let rb = sb * 0x1_0000_0000 + b.dst.0 as int;
    assert(0 <= sa < 0x1_0000_0000_0000 && 0 <= sb < 0x1_0000_0000_0000);
    assert(0 <= ra < 0x1_0000_0000_0000_0000_0000 && 0 <= rb < 0x1_0000_0000_0000_0000_0000);
    assert(spec_key(a) == ra * 0x1_0000 + a.dst.1 as int);
    assert(spec_key(b) == rb * 0x1_0000 + b.dst.1 as int);
    lemma_digits(ra, a.dst.1 as int, rb, b.dst.1 as int, 0x1_0000);
    lemma_digits(sa, a.dst.0 as int, sb, b.dst.0 as int, 0x1_0000_0000);
    lemma_digits(a.src.0 as int, a.src.1 as int, b.src.0 as int, b.src.1 as int, 0x1_0000);
}

/// Why an operation of the application did not go through.
#[derive(Clone, Copy, Debug, PartialEq, Eq, Structural)]
pub enum StreamError {
    /// the port is bound already
    AddrInUse,
    /// the connection is gone from the table
    ConnectionAborted,
    /// the connection was shut down for writing
    BrokenPipe,
    /// the outgoing queue has no room, or is not drained yet
    WouldBlock,
}

/// What a read found.
#[derive(Debug, PartialEq, Eq)]
pub enum ReadStep {
    /// these bytes, taken off the connection
    Data(Vec<u8>),
    /// the end of the stream: the peer has closed and all was read
    End,
    /// nothing yet: wait for the next wake-up and read again
    Wait,
}

/// What one connection did on a tick of the clock.
pub struct Tick {
    pub pair: SocketPair,
    pub action: Action,
    pub datagram: Option<Vec<u8>>,
}

/// A bound port, ready to hand out the connections that arrive on it.
pub struct TcpListener {
    pub port: u16,
}

/// One end of a connection, as the application holds it.
#[derive(Clone, Copy, Debug)]
pub struct TcpStream {
    socketpair: SocketPair,
}

/// The connections, each under the key of its four-tuple, and for each
/// bound port the connections not yet accepted.
pub struct ConnectionManager {
    connections: HashMap<u128, TCB>,
    pending: HashMap<u16, VecDeque<SocketPair>>,
}

/// The table as a mathematical value.
pub struct ManagerView {
    /// the connections, each under the key of its four-tuple
    pub connections: Map<u128, TcbView>,
    /// for each bound port, the connections that wait to be accepted
    pub pending: Map<u16, Seq<SocketPair>>,
}

/// What taking in a datagram leaves behind: the table after it, the
/// action for the caller, none if the datagram was dropped, and the
/// datagram to send, if any.
pub struct Dispatch {
    pub manager: ManagerView,
    pub action: Option<Action>,
    pub datagram: Option<Seq<u8>>,
}

/// What an operation of a stream leaves behind.
pub struct Step<T> {
    pub manager: ManagerView,
    pub result: Result<T, StreamError>,
}

/// What a read finds, with the bytes as a mathematical value.
pub enum ReadFound {
    Data(Seq<u8>),
    End,
    Wait,
}

impl ManagerView {
    /// What holds of every table between operations: each connection is
    /// well formed and stands under the key of its own four-tuple, so that
    /// no four-tuple has two connections; and whatever waits to be accepted
    /// on a port is a connection of the table to that port.
    pub open spec fn wf(self) -> bool {
        &&& forall|k: u128|
            self.connections.contains_key(k) ==> (#[trigger] self.connections[k]).wf()
                && spec_key(self.connections[k].pair) == k
        &&& self.pending_wf()
    }

    /// Whatever waits to be accepted on a port is a connection of the
    /// table to that port.
    pub open spec fn pending_wf(self) -> bool {
        forall|port: u16, i: int|
            self.pending.contains_key(port) && 0 <= i < self.pending[port].len() ==> self.has(
                #[trigger] self.pending[port][i],
            ) && self.pending[port][i].dst.1 == port
    }

    pub open spec fn empty() -> ManagerView {
        ManagerView { connections: Map::empty(), pending: Map::empty() }
    }

    /// The table holds a connection with this four-tuple.
    pub open spec fn has(self, pair: SocketPair) -> bool {
        self.connections.contains_key(spec_key(pair))
    }

    /// The connection with this four-tuple.
    pub open spec fn get(self, pair: SocketPair) -> TcbView {
        self.connections[spec_key(pair)]
    }

    /// The table with the connection of this four-tuple put in, or
    /// replaced.
    pub open spec fn put(self, pair: SocketPair, tcb: TcbView) -> ManagerView {
        ManagerView { connections: self.connections.insert(spec_key(pair), tcb), ..self }
    }

    /// The queues of waiting connections with this four-tuple struck from
    /// the queue of its port.
    pub open spec fn struck(self, pair: SocketPair) -> Map<u16, Seq<SocketPair>> {
        if self.pending.contains_key(pair.dst.1) {
            self.pending.insert(pair.dst.1, self.pending[pair.dst.1].filter(other_than(pair)))
        } else {
            self.pending
        }
    }

    /// The table without the connection of this four-tuple, among the
    /// connections and among those that wait to be accepted.
    pub open spec fn without(self, pair: SocketPair) -> ManagerView {
        if self.has(pair) {
            ManagerView {
                connections: self.connections.remove(spec_key(pair)),
                pending: self.struck(pair),
            }
        } else {
            self
        }
    }

    /// The table after a port is bound.
    pub open spec fn bind(self, port: u16) -> ManagerView {
        ManagerView { pending: self.pending.insert(port, Seq::empty()), ..self }
    }

    /// A connection waits to be accepted on the port.
    pub open spec fn can_accept(self, port: u16) -> bool {
        self.pending.contains_key(port) && self.pending[port].len() > 0
    }

    /// The table after the oldest waiting connection of the port is
    /// accepted.
    pub open spec fn accept(self, port: u16) -> ManagerView {
        ManagerView {
            pending: self.pending.insert(port, self.pending[port].drop_first()),
            ..self
        }
    }

    /// Nothing changes and nothing is handed back.
    pub open spec fn dropped(self) -> Dispatch {
        Dispatch { manager: self, action: None, datagram: None }
    }

    /// What a datagram from the device does to the table. A datagram that
    /// does not parse is dropped. One for a connection in the table goes to
    /// that connection, which leaves the table if it says so. One for no
    /// connection opens one if it is a SYN for a bound port, and is dropped
    /// otherwise.
    pub open spec fn on_datagram(self, bytes: Seq<u8>, now: u64) -> Dispatch {
        if !datagram_parses(bytes) {
            self.dropped()
        } else {
            let p = parsed(bytes);
            let pair = pair_of(&p.ip, &p.tcp);
            let port = p.tcp.destination_port;
            if self.has(pair) {
                let o = self.get(pair).on_segment(p.tcp, payload_of(bytes), now);
                Dispatch {
                    manager: if o.action is Close {
                        self.without(pair)
                    } else {
                        self.put(pair, o.tcb)
                    },
                    action: Some(o.action),
                    datagram: o.datagram(),
                }
            } else if self.pending.contains_key(port) && p.tcp.syn {
                let o = TcbView::opened(pair, p.tcp, 0).reply(
                    Request::SYNACK,
                    MAX_PAYLOAD as nat,
                    now,
                    Action::New,
                );
                Dispatch {
                    manager: ManagerView {
                        connections: self.connections.insert(spec_key(pair), o.tcb),
                        pending: self.pending.insert(port, self.pending[port].push(pair)),
                    },
                    action: Some(Action::New),
                    datagram: o.datagram(),
                }
            } else {
                self.dropped()
            }
        }
    }

    /// What a read of at most `max` bytes finds and leaves behind.
    pub open spec fn read(self, pair: SocketPair, max: int) -> Step<ReadFound> {
        if !self.has(pair) {
            Step { manager: self, result: Err(StreamError::ConnectionAborted) }
        } else {
            let t = self.get(pair);
            if t.incoming.len() > 0 {
                Step {
                    manager: self.put(pair, t.consume(max)),
                    result: Ok(ReadFound::Data(t.incoming.take(t.readable(max)))),
                }
            } else if t.is_recv_closed() {
                Step { manager: self, result: Ok(ReadFound::End) }
            } else {
                Step { manager: self, result: Ok(ReadFound::Wait) }
            }
        }
    }

    /// What a write of `buf` returns and leaves behind.
    pub open spec fn write(self, pair: SocketPair, buf: Seq<u8>) -> Step<usize> {
        if !self.has(pair) {
            Step { manager: self, result: Err(StreamError::ConnectionAborted) }
        } else {
            let t = self.get(pair);
            if t.closed {
                Step { manager: self, result: Err(StreamError::BrokenPipe) }
            } else if t.outgoing.len() >= OUTGOING_LIMIT {
                Step { manager: self, result: Err(StreamError::WouldBlock) }
            } else {
                Step {
                    manager: self.put(pair, t.queue(buf)),
                    result: Ok(t.room_for(buf.len() as int) as usize),
                }
            }
        }
    }

    /// What a flush returns.
    pub open spec fn flush(self, pair: SocketPair) -> Result<(), StreamError> {
        if !self.has(pair) {
            Err(StreamError::ConnectionAborted)
        } else if self.get(pair).outgoing.len() == 0 {
            Ok(())
        } else {
            Err(StreamError::WouldBlock)
        }
    }

    /// What a shutdown returns and leaves behind.
    pub open spec fn shutdown(self, pair: SocketPair) -> Step<()> {
        if !self.has(pair) {
            Step { manager: self, result: Err(StreamError::ConnectionAborted) }
        } else {
            Step { manager: self.put(pair, self.get(pair).close()), result: Ok(()) }
        }
    }

    /// The table after every connection has seen the clock tick.
    pub open spec fn on_idle(self, now: u64) -> ManagerView {
        ManagerView {
            connections: Map::new(
                |k: u128| self.connections.contains_key(k),
                |k: u128| self.connections[k].on_tick(now).tcb,
            ),
            ..self
        }
    }

    /// The reports are those of one tick of every connection: one for each
    /// connection of the table and no two for one, each with what that
    /// connection hands back.
    pub open spec fn ticked(self, now: u64, ticks: Seq<Tick>) -> bool {
        &&& ticks.len() == self.connections.dom().len()
        &&& forall|i: int|
            0 <= i < ticks.len() ==> self.has((#[trigger] ticks[i]).pair) && self.get(
                ticks[i].pair,
            ).on_tick(now).handed_back((ticks[i].action, ticks[i].datagram))
        &&& forall|i: int, j: int|
            0 <= i < j < ticks.len() ==> (#[trigger] ticks[i]).pair != (#[trigger] ticks[j]).pair
        &&& forall|pair: SocketPair|
            self.has(pair) ==> exists|i: int|
                0 <= i < ticks.len() && (#[trigger] ticks[i]).pair == pair
    }
}

/// The four-tuples other than `pair`.
pub open spec fn other_than(pair: SocketPair) -> spec_fn(SocketPair) -> bool {
    |p: SocketPair| p != pair
}

impl Dispatch {
    /// An operation that handed `r` back did what this says.
    pub open spec fn handed_back(self, r: (Option<Action>, Option<Vec<u8>>)) -> bool {
        &&& r.0 == self.action
        &&& match self.datagram {
            Some(d) => r.1 is Some && r.1->0@ == d,
            None => r.1 is None,
        }
    }
}

/// The queues of a map of queues as mathematical values.
pub open spec fn queues(m: Map<u16, VecDeque<SocketPair>>) -> Map<u16, Seq<SocketPair>> {
    Map::new(|port: u16| m.contains_key(port), |port: u16| m[port]@)
}

/// The connections of a map of blocks as mathematical values.
pub open spec fn views(m: Map<u128, TCB>) -> Map<u128, TcbView> {
    Map::new(|k: u128| m.contains_key(k), |k: u128| m[k]@)
}

impl View for ConnectionManager {
    type V = ManagerView;

    closed spec fn view(&self) -> ManagerView {
        ManagerView { connections: views(self.connections@), pending: queues(self.pending@) }
    }
}

impl View for TcpStream {
    type V = SocketPair;

    closed spec fn view(&self) -> SocketPair {
        self.socketpair
    }
}

/// In a well-formed table no four-tuple has two connections: two
/// connections of the table with one four-tuple stand under one key.
pub proof fn lemma_one_connection_per_pair(m: ManagerView, a: u128, b: u128)
    requires
        m.wf(),
        m.connections.contains_key(a),
        m.connections.contains_key(b),
        m.connections[a].pair == m.connections[b].pair,
    ensures
        a == b,
{
}

/// In a well-formed table the connection found for a four-tuple is the
/// connection of that four-tuple.
pub proof fn lemma_get(m: ManagerView, pair: SocketPair)
    requires
        m.wf(),
        m.has(pair),
    ensures
        m.get(pair).pair == pair,
        m.get(pair).wf(),
{
    lemma_key_names_one_pair(m.get(pair).pair, pair);
}

/// Replacing a connection by a well-formed one of the same four-tuple
/// leaves a well-formed table that holds the same four-tuples.
pub proof fn lemma_put(m: ManagerView, pair: SocketPair, tcb: TcbView)
    requires
        m.wf(),
        m.has(pair),
        tcb.wf(),
        tcb.pair == pair,
    ensures
        m.put(pair, tcb).wf(),
        forall|other: SocketPair| m.put(pair, tcb).has(other) == m.has(other),
{
    let after = m.put(pair, tcb);
    assert forall|port: u16, i: int|
        after.pending.contains_key(port) && 0 <= i < after.pending[port].len() implies after.has(
        #[trigger] after.pending[port][i],
    ) && after.pending[port][i].dst.1 == port by {
        assert(m.has(m.pending[port][i]));
    }
}

/// Taking a connection out of a well-formed table leaves a well-formed
/// table that holds every other connection and not this one.
pub proof fn lemma_without(m: ManagerView, pair: SocketPair)
    requires
        m.wf(),
    ensures
        m.without(pair).wf(),
        !m.without(pair).has(pair),
        forall|other: SocketPair| other != pair ==> m.without(pair).has(other) == m.has(other),
{
    let after = m.without(pair);
    assert forall|other: SocketPair| other != pair implies after.has(other) == m.has(other) by {
        if spec_key(other) == spec_key(pair) {
            lemma_key_names_one_pair(other, pair);
        }
    }
    if m.has(pair) {
        assert forall|port: u16, i: int|
            after.pending.contains_key(port) && 0 <= i < after.pending[port].len() implies after.has(
            #[trigger] after.pending[port][i],
        ) && after.pending[port][i].dst.1 == port by {
            let waiting = after.pending[port][i];
            if port == pair.dst.1 {
                let queue = m.pending[port];
                let kept = queue.filter(other_than(pair));
                queue.lemma_filter_pred(other_than(pair), i);
                assert(kept.contains(kept[i]));
                queue.lemma_filter_contains_rev(other_than(pair), waiting);
                let k = choose|k: int| 0 <= k < queue.len() && queue[k] == waiting;
                assert(m.has(m.pending[port][k]));
            } else {
                assert(m.has(m.pending[port][i]));
            }
            assert(waiting != pair);
        }
    }
}

/// A new connection under a four-tuple that the table does not hold yet,
/// queued on its port, leaves a well-formed table.
pub proof fn lemma_opened(m: ManagerView, pair: SocketPair, tcb: TcbView, port: u16)
    requires
        m.wf(),
        !m.has(pair),
        tcb.wf(),
        tcb.pair == pair,
        pair.dst.1 == port,
        m.pending.contains_key(port),
    ensures
        (ManagerView {
            connections: m.connections.insert(spec_key(pair), tcb),
            pending: m.pending.insert(port, m.pending[port].push(pair)),
        }).wf(),
{
    let after = ManagerView {
        connections: m.connections.insert(spec_key(pair), tcb),
        pending: m.pending.insert(port, m.pending[port].push(pair)),
    };
    assert forall|q: u16, i: int|
        after.pending.contains_key(q) && 0 <= i < after.pending[q].len() implies after.has(
        #[trigger] after.pending[q][i],
    ) && after.pending[q][i].dst.1 == q by {
        if !(q == port && i == m.pending[port].len()) {
            assert(m.has(m.pending[q][i]));
        }
    }
}

/// A tick of every connection leaves a well-formed table that holds the
/// same four-tuples.
pub proof fn lemma_on_idle(m: ManagerView, now: u64)
    requires
        m.wf(),
    ensures
        m.on_idle(now).wf(),
        forall|pair: SocketPair| m.on_idle(now).has(pair) == m.has(pair),
{
    let after = m.on_idle(now);
    assert forall|k: u128| after.connections.contains_key(k) implies (
    #[trigger] after.connections[k]).wf() && spec_key(after.connections[k].pair) == k by {
        assert(m.connections[k].wf());
        lemma_on_tick_wf(m.connections[k], now);
    }
    assert forall|port: u16, i: int|
        after.pending.contains_key(port) && 0 <= i < after.pending[port].len() implies after.has(
        #[trigger] after.pending[port][i],
    ) && after.pending[port][i].dst.1 == port by {
        assert(m.has(m.pending[port][i]));
    }
}

/// The queue without every occurrence of a four-tuple.
fn strike(queue: &VecDeque<SocketPair>, pair: &SocketPair) -> (kept: VecDeque<SocketPair>)
    ensures
        kept@ == queue@.filter(other_than(*pair)),
{
    let mut kept: VecDeque<SocketPair> = VecDeque::new();
    let mut i: usize = 0;
    proof {
        reveal(Seq::filter);
        assert(queue@.take(0).filter(other_than(*pair)) =~= Seq::empty());
    }
    while i < queue.len()
        invariant
            i <= queue@.len(),
            kept@ == queue@.take(i as int).filter(other_than(*pair)),
        decreases queue@.len() - i,
    {
        let waiting = queue[i];
        proof {
            reveal(Seq::filter);
            assert(queue@.take(i + 1).drop_last() =~= queue@.take(i as int));
        }
        if !waiting.same(pair) {
            kept.push_back(waiting);
        }
        i += 1;
    }
    assert(queue@.take(i as int) =~= queue@);
    kept
}

impl Default for ConnectionManager {
    fn default() -> (cm: Self)
        ensures
            cm@ == ManagerView::empty(),
            cm@.wf(),
    {
        ConnectionManager::new()
    }
}

impl ConnectionManager {
    /// A table without connections and without bound ports.
    pub fn new() -> (cm: Self)
        ensures
            cm@ == ManagerView::empty(),
            cm@.wf(),
    {
        let cm = ConnectionManager { connections: HashMap::new(), pending: HashMap::new() };
        assert(cm@.connections =~= Map::empty());
        assert(cm@.pending =~= Map::empty());
        cm
    }

    /// How many connections the table holds.
    pub fn len(&self) -> (n: usize)
        ensures
            n == self@.connections.dom().len(),
    {
        assert(self@.connections.dom() =~= self.connections@.dom());
        self.connections.len()
    }

    /// Whether the table holds a connection with this four-tuple.
    pub fn contains(&self, pair: &SocketPair) -> (r: bool)
        ensures
            r == self@.has(*pair),
    {
        self.connections.contains_key(&pair.key())
    }

    /// Whether the port is bound.
    pub fn is_bound(&self, port: u16) -> (r: bool)
        ensures
            r == self@.pending.contains_key(port),
    {
        self.pending.contains_key(&port)
    }

    /// Binds a port. A port can be bound once.
    pub fn bind(&mut self, port: u16) -> (r: Result<TcpListener, StreamError>)
        ensures
            match r {
                Ok(listener) => {
                    &&& !old(self)@.pending.contains_key(port)
                    &&& listener.port == port
                    &&& final(self)@ == old(self)@.bind(port)
                },
                Err(e) => {
                    &&& old(self)@.pending.contains_key(port)
                    &&& e == StreamError::AddrInUse
                    &&& final(self)@ == old(self)@
                },
            },
            old(self)@.wf() ==> final(self)@.wf(),
    {
        if self.pending.contains_key(&port) {
            return Err(StreamError::AddrInUse);
        }
        self.pending.insert(port, VecDeque::new());
        assert(self@.pending =~= old(self)@.bind(port).pending);
        assert(self@.connections == old(self)@.connections);
        proof {
            if old(self)@.wf() {
                assert forall|q: u16, i: int|
                    self@.pending.contains_key(q) && 0 <= i < self@.pending[q].len() implies self@.has(
                    #[trigger] self@.pending[q][i],
                ) && self@.pending[q][i].dst.1 == q by {
                    assert(old(self)@.has(old(self)@.pending[q][i]));
                }
            }
        }
        Ok(TcpListener { port })
    }

    /// Strikes a four-tuple from the queue of those that wait to be
    /// accepted on its port.
    fn strike_pending(&mut self, pair: &SocketPair)
        ensures
            final(self)@.connections == old(self)@.connections,
            final(self)@.pending == old(self)@.struck(*pair),
    {
        match self.pending.remove(&pair.dst.1) {
            Some(queue) => {
                let kept = strike(&queue, pair);
                self.pending.insert(pair.dst.1, kept);
            },
            None => {},
        }
        assert(self@.pending =~= old(self)@.struck(*pair));
    }

    /// Takes a connection out of the table, if it is there, and out of the
    /// queue of those that wait to be accepted.
    pub fn remove(&mut self, pair: &SocketPair) -> (r: bool)
        requires
            old(self)@.wf(),
        ensures
            r == old(self)@.has(*pair),
            final(self)@ == old(self)@.without(*pair),
            final(self)@.wf(),
    {
        let key = pair.key();
        proof {
            lemma_without(self@, *pair);
        }
        match self.connections.remove(&key) {
            Some(_) => {
                assert(self@.connections =~= old(self)@.connections.remove(key));
                self.strike_pending(pair);
                true
            },
            None => {
                assert(self@.connections =~= old(self)@.connections);
                false
            },
        }
    }

    /// Hands a segment to the connection of its four-tuple, if there is
    /// one, and takes the connection out of the table if it says that it
    /// is over. Without a connection nothing happens.
    fn segment_for(&mut self, pair: &SocketPair, tcp: &TcpFields, data: &[u8], now: u64) -> (r:
        Option<(Action, Option<Vec<u8>>)>)
        requires
            old(self)@.wf(),
        ensures
            r is Some <==> old(self)@.has(*pair),
            final(self)@.wf(),
            match r {
                Some(handed) => {
                    let o = old(self)@.get(*pair).on_segment(*tcp, data@, now);
                    &&& o.handed_back(handed)
                    &&& final(self)@ == (if o.action is Close {
                        old(self)@.without(*pair)
                    } else {
                        old(self)@.put(*pair, o.tcb)
                    })
                },
                None => final(self)@ == old(self)@,
            },
    {
        let key = pair.key();
        match self.connections.remove(&key) {
            Some(mut tcb) => {
                proof {
                    lemma_get(old(self)@, *pair);
                    lemma_on_segment_wf(tcb@, *tcp, data@, now);
                    lemma_without(old(self)@, *pair);
                    lemma_put(old(self)@, *pair, tcb@.on_segment(*tcp, data@, now).tcb);
                }
                let (action, datagram) = tcb.on_segment(tcp, data, now);
                if action == Action::Close {
                    assert(self@.connections =~= old(self)@.connections.remove(key));
                    self.strike_pending(pair);
                } else {
                    self.connections.insert(key, tcb);
                    assert(self@.connections =~= old(self)@.connections.insert(key, tcb@));
                    assert(self@.pending =~= old(self)@.pending);
                }
                Some((action, datagram))
            },
            None => {
                assert(self@.connections =~= old(self)@.connections);
                None
            },
        }
    }

    /// Opens a connection for a first segment to a bound port, if the
    /// segment is a SYN, and queues it to be accepted.
    fn open_for(&mut self, ip: &Ipv4Fields, tcp: &TcpFields, now: u64) -> (r: Option<Vec<u8>>)
        requires
            old(self)@.wf(),
            !old(self)@.has(pair_of(ip, tcp)),
            old(self)@.pending.contains_key(tcp.destination_port),
        ensures
            r is Some <==> tcp.syn,
            final(self)@.wf(),
            match r {
                Some(datagram) => {
                    let pair = pair_of(ip, tcp);
                    let o = TcbView::opened(pair, *tcp, 0).reply(
                        Request::SYNACK,
                        MAX_PAYLOAD as nat,
                        now,
                        Action::New,
                    );
                    &&& Some(datagram@) == o.datagram()
                    &&& final(self)@.connections == old(self)@.connections.insert(
                        spec_key(pair),
                        o.tcb,
                    )
                    &&& final(self)@.pending == old(self)@.pending.insert(
                        tcp.destination_port,
                        old(self)@.pending[tcp.destination_port].push(pair),
                    )
                },
                None => final(self)@ == old(self)@,
            },
    {
        let pair = pair_of(ip, tcp);
        let port = tcp.destination_port;
        match TCB::new_connection(ip, tcp, now) {
            Some((tcb, datagram)) => {
                proof {
                    lemma_opened(self@, pair, tcb@, port);
                }
                match self.pending.remove(&port) {
                    Some(mut queue) => {
                        queue.push_back(pair);
                        self.pending.insert(port, queue);
                    },
                    None => {},
                }
                self.connections.insert(pair.key(), tcb);
                assert(self@.connections =~= old(self)@.connections.insert(spec_key(pair), tcb@));
                assert(self@.pending =~= old(self)@.pending.insert(
                    port,
                    old(self)@.pending[port].push(pair),
                ));
                Some(datagram)
            },
            None => None,
        }
    }

    /// Takes in a datagram that the device has read. Hands back what the
    /// caller has to do, nothing if the datagram was dropped, and the
    /// datagram to send in answer, if there is one.
    pub fn on_datagram(&mut self, bytes: &[u8], now: u64) -> (r: (Option<Action>, Option<Vec<u8>>))
        requires
            old(self)@.wf(),
        ensures
            final(self)@ == old(self)@.on_datagram(bytes@, now).manager,
            old(self)@.on_datagram(bytes@, now).handed_back(r),
            final(self)@.wf(),
    {
        let p = match parse_datagram(bytes) {
            Some(p) => p,
            None => {
                return (None, None);
            },
        };
        let pair = pair_of(&p.ip, &p.tcp);
        let data = &bytes[p.data_start..bytes.len()];
        assert(data@ =~= payload_of(bytes@));
        match self.segment_for(&pair, &p.tcp, data, now) {
            Some((action, datagram)) => (Some(action), datagram),
            None => {
                if !self.pending.contains_key(&p.tcp.destination_port) {
                    return (None, None);
                }
                match self.open_for(&p.ip, &p.tcp, now) {
                    Some(datagram) => (Some(Action::New), Some(datagram)),
                    None => (None, None),
                }
            },
        }
    }

    /// The keys of all connections, each once.
    fn keys(&self) -> (keys: Vec<u128>)
        ensures
            keys@.no_duplicates(),
            keys@.to_set() == self@.connections.dom(),
            keys@.len() == self@.connections.dom().len(),
    {
        let mut keys: Vec<u128> = Vec::new();
        let ghost all = vstd::std_specs::hash::spec_keys_iter(&self.connections).remaining();
        for key in it: self.connections.keys()
            invariant
                it.seq() == all,
                keys@.len() == it.index(),
                forall|j: int| 0 <= j < keys@.len() ==> keys@[j] == *it.seq()[j],
        {
            keys.push(*key);
        }
        assert(keys@ =~= all.unref());
        assert(self@.connections.dom() =~= self.connections@.dom());
        keys
    }

    /// Lets the clock act on every connection. Hands back, connection by
    /// connection in no particular order, what the caller has to do and the
    /// datagram to send, if there is one. A connection that is over stays
    /// in the table until the caller removes it.
    pub fn on_idle(&mut self, now: u64) -> (r: Vec<Tick>)
        requires
            old(self)@.wf(),
        ensures
            final(self)@ == old(self)@.on_idle(now),
            final(self)@.wf(),
            old(self)@.ticked(now, r@),
    {
        let keys = self.keys();
        let ghost before = self@.connections;
        let mut out: Vec<Tick> = Vec::new();
        let mut i: usize = 0;
        while i < keys.len()
            invariant
                i <= keys@.len(),
                out@.len() == i,
                keys@.no_duplicates(),
                keys@.to_set() == before.dom(),
                before == old(self)@.connections,
                old(self)@.wf(),
                self@.pending == old(self)@.pending,
                self@.connections.dom() == before.dom(),
                forall|j: int|
                    0 <= j < i ==> self@.connections[#[trigger] keys@[j]] == before[keys@[j]].on_tick(
                        now,
                    ).tcb,
                forall|j: int|
                    i <= j < keys@.len() ==> self@.connections[#[trigger] keys@[j]]
                        == before[keys@[j]],
                forall|j: int|
                    0 <= j < i ==> (#[trigger] out@[j]).pair == before[keys@[j]].pair
                        && before[keys@[j]].on_tick(now).handed_back(
                        (out@[j].action, out@[j].datagram),
                    ),
            decreases keys@.len() - i,
        {
            let key = keys[i];
            let ghost mid = self@.connections;
            assert(keys@.to_set().contains(keys@[i as int]));
            assert(before[key].wf());
            match self.connections.remove(&key) {
                Some(mut tcb) => {
                    let pair = tcb.pair();
                    let (action, datagram) = tcb.on_tick(now);
                    self.connections.insert(key, tcb);
                    out.push(Tick { pair, action, datagram });
                },
                None => {
                    assert(false);
                },
            }
            assert(self@.connections =~= mid.insert(key, before[key].on_tick(now).tcb));
            assert(self@.pending =~= old(self)@.pending);
            i += 1;
        }
        proof {
            assert forall|k: u128| before.contains_key(k) implies self@.connections[k]
                == before[k].on_tick(now).tcb by {
                assert(keys@.to_set().contains(k));
                let j = choose|j: int| 0 <= j < keys@.len() && keys@[j] == k;
                assert(self@.connections[keys@[j]] == before[keys@[j]].on_tick(now).tcb);
            }
            assert(self@.connections =~= old(self)@.on_idle(now).connections);
            lemma_on_idle(old(self)@, now);
            let m = old(self)@;
            assert forall|j: int| 0 <= j < out@.len() implies m.has((#[trigger] out@[j]).pair)
                && m.get(out@[j].pair).on_tick(now).handed_back(
                (out@[j].action, out@[j].datagram),
            ) by {
                assert(keys@.to_set().contains(keys@[j]));
                assert(before[keys@[j]].wf());
            }
            assert forall|a: int, b: int| 0 <= a < b < out@.len() implies (#[trigger] out@[a]).pair
                != (#[trigger] out@[b]).pair by {
                assert(keys@.to_set().contains(keys@[a]));
                assert(keys@.to_set().contains(keys@[b]));
                assert(before[keys@[a]].wf() && before[keys@[b]].wf());
                assert(keys@[a] != keys@[b]);
            }
            assert forall|pair: SocketPair| m.has(pair) implies exists|j: int|
                0 <= j < out@.len() && (#[trigger] out@[j]).pair == pair by {
                let k = spec_key(pair);
                assert(keys@.to_set().contains(k));
                let j = choose|j: int| 0 <= j < keys@.len() && keys@[j] == k;
                assert(before[keys@[j]].wf());
                lemma_key_names_one_pair(out@[j].pair, pair);
            }
        }
        out
    }
}

impl TcpListener {
    /// Hands out the connection that has waited longest on the port, or
    /// `None` if none waits.
    pub fn try_new(&self, cm: &mut ConnectionManager) -> (r: Option<TcpStream>)
        ensures
            match r {
                Some(stream) => {
                    &&& old(cm)@.can_accept(self.port)
                    &&& stream@ == old(cm)@.pending[self.port][0]
                    &&& final(cm)@ == old(cm)@.accept(self.port)
                },
                None => !old(cm)@.can_accept(self.port) && final(cm)@ == old(cm)@,
            },
            old(cm)@.wf() ==> final(cm)@.wf(),
    {
        let mut queue = match cm.pending.remove(&self.port) {
            Some(queue) => queue,
            None => {
                assert(cm@.pending =~= old(cm)@.pending);
                return None;
            },
        };
        let first = queue.pop_front();
        cm.pending.insert(self.port, queue);
        assert(cm@.connections == old(cm)@.connections);
        match first {
            Some(socketpair) => {
                assert(cm@.pending =~= old(cm)@.accept(self.port).pending);
                proof {
                    if old(cm)@.wf() {
                        assert forall|q: u16, i: int|
                            cm@.pending.contains_key(q) && 0 <= i < cm@.pending[q].len() implies cm@.has(
                            #[trigger] cm@.pending[q][i],
                        ) && cm@.pending[q][i].dst.1 == q by {
                            if q == self.port {
                                assert(old(cm)@.has(old(cm)@.pending[q][i + 1]));
                            } else {
                                assert(old(cm)@.has(old(cm)@.pending[q][i]));
                            }
                        }
                    }
                }
                Some(TcpStream { socketpair })
            },
            None => {
                assert(cm@.pending =~= old(cm)@.pending);
                None
            },
        }
    }
}

impl TcpStream {
    /// The four-tuple of the connection.
    pub fn socketpair(&self) -> (pair: SocketPair)
        ensures
            pair == self@,
    {
        self.socketpair
    }

    /// Reads at most `max` bytes. Fails if the connection is gone.
    pub fn read(&self, cm: &mut ConnectionManager, max: usize) -> (r: Result<ReadStep, StreamError>)
        requires
            old(cm)@.wf(),
        ensures
            final(cm)@ == old(cm)@.read(self@, max as int).manager,
            final(cm)@.wf(),
            match old(cm)@.read(self@, max as int).result {
                Ok(ReadFound::Data(bytes)) => r matches Ok(ReadStep::Data(b)) && b@ == bytes,
                Ok(ReadFound::End) => r == Ok::<ReadStep, StreamError>(ReadStep::End),
                Ok(ReadFound::Wait) => r == Ok::<ReadStep, StreamError>(ReadStep::Wait),
                Err(e) => r == Err::<ReadStep, StreamError>(e),
            },
    {
        let key = self.socketpair.key();
        let mut tcb = match cm.connections.remove(&key) {
            Some(tcb) => tcb,
            None => {
                assert(cm@.connections =~= old(cm)@.connections);
                return Err(StreamError::ConnectionAborted);
            },
        };
        proof {
            lemma_get(old(cm)@, self.socketpair);
            lemma_put(old(cm)@, self.socketpair, tcb@.consume(max as int));
        }
        let found = if tcb.incoming_len() > 0 {
            ReadStep::Data(tcb.consume(max))
        } else if tcb.is_recv_closed() {
            ReadStep::End
        } else {
            ReadStep::Wait
        };
        cm.connections.insert(key, tcb);
        assert(cm@.connections =~= old(cm)@.read(self@, max as int).manager.connections);
        assert(cm@.pending =~= old(cm)@.pending);
        Ok(found)
    }

    /// Queues as many of the first bytes of `buf` as there is room for and
    /// returns how many. Fails if the connection is gone, was shut down, or
    /// has no room at all.
    pub fn write(&self, cm: &mut ConnectionManager, buf: &[u8]) -> (r: Result<usize, StreamError>)
        requires
            old(cm)@.wf(),
        ensures
            final(cm)@ == old(cm)@.write(self@, buf@).manager,
            r == old(cm)@.write(self@, buf@).result,
            final(cm)@.wf(),
    {
        let key = self.socketpair.key();
        let mut tcb = match cm.connections.remove(&key) {
            Some(tcb) => tcb,
            None => {
                assert(cm@.connections =~= old(cm)@.connections);
                return Err(StreamError::ConnectionAborted);
            },
        };
        proof {
            lemma_get(old(cm)@, self.socketpair);
            lemma_put(old(cm)@, self.socketpair, tcb@.queue(buf@));
        }
        let r = if tcb.is_closed() {
            Err(StreamError::BrokenPipe)
        } else if tcb.outgoing_len() >= OUTGOING_LIMIT {
            Err(StreamError::WouldBlock)
        } else {
            Ok(tcb.queue(buf))
        };
        cm.connections.insert(key, tcb);
        assert(cm@.connections =~= old(cm)@.write(self@, buf@).manager.connections);
        assert(cm@.pending =~= old(cm)@.pending);
        r
    }

    /// Succeeds once everything written is acknowledged.
    pub fn flush(&self, cm: &ConnectionManager) -> (r: Result<(), StreamError>)
        ensures
            r == cm@.flush(self@),
    {
        match cm.connections.get(&self.socketpair.key()) {
            Some(tcb) => {
                if tcb.outgoing_len() == 0 {
                    Ok(())
                } else {
                    Err(StreamError::WouldBlock)
                }
            },
            None => Err(StreamError::ConnectionAborted),
        }
    }

    /// Whether `shutdown` may be called: the connection is gone, or it is
    /// open for writing.
    pub fn can_shutdown(&self, cm: &ConnectionManager) -> (r: bool)
        ensures
            r == (cm@.has(self@) ==> cm@.get(self@).can_close()),
    {
        match cm.connections.get(&self.socketpair.key()) {
            Some(tcb) => tcb.can_close(),
            None => true,
        }
    }

    /// Closes the connection for writing. Fails if the connection is gone.
    pub fn shutdown(&self, cm: &mut ConnectionManager) -> (r: Result<(), StreamError>)
        requires
            old(cm)@.wf(),
            old(cm)@.has(self@) ==> old(cm)@.get(self@).can_close(),
        ensures
            final(cm)@ == old(cm)@.shutdown(self@).manager,
            r == old(cm)@.shutdown(self@).result,
            final(cm)@.wf(),
    {
        let key = self.socketpair.key();
        let mut tcb = match cm.connections.remove(&key) {
            Some(tcb) => tcb,
            None => {
                assert(cm@.connections =~= old(cm)@.connections);
                return Err(StreamError::ConnectionAborted);
            },
        };
        proof {
            lemma_get(old(cm)@, self.socketpair);
            lemma_put(old(cm)@, self.socketpair, tcb@.close());
        }
        tcb.close();
        cm.connections.insert(key, tcb);
        assert(cm@.connections =~= old(cm)@.shutdown(self@).manager.connections);
        assert(cm@.pending =~= old(cm)@.pending);
        Ok(())
    }
}

} // verus!
