//! IPv4 and TCP headers on the wire.
//!
//! Headers are read and written by `etherparse`. What the engine reads from
//! a header, and what it fills in when it emits one, is held here as plain
//! values; the calls into `etherparse` stand at the end of the file.

use vstd::prelude::*;

verus! {

/// Largest datagram handed to or taken from the device.
pub const MTU: usize = 1500;

/// Length of an IPv4 header without options.
pub const IP_HEADER_LEN: usize = 20;

/// Length of a TCP header without options.
pub const TCP_HEADER_LEN: usize = 20;

/// Largest payload that fits a datagram of `MTU` bytes.
pub const MAX_PAYLOAD: usize = MTU - IP_HEADER_LEN - TCP_HEADER_LEN;

/// Largest payload that an IPv4 datagram can carry behind both headers.
pub const MAX_IP_PAYLOAD: usize = 65495;

/// IP protocol number of TCP.
pub const PROTOCOL_TCP: u8 = 6;

/// Time to live of emitted datagrams.
pub const TTL: u8 = 64;

/// What the engine reads from an IPv4 header. Addresses are the four
/// address bytes read as one big-endian number.
#[derive(Clone, Copy, Debug, PartialEq, Eq, Structural)]
pub struct Ipv4Fields {
    pub protocol: u8,
    pub source: u32,
    pub destination: u32,
}

/// What the engine reads from a TCP header, and what it sets in one.
#[derive(Clone, Copy, Debug, PartialEq, Eq, Structural)]
pub struct TcpFields {
    pub source_port: u16,
    pub destination_port: u16,
    pub sequence_number: u32,
    pub acknowledgment_number: u32,
    pub window_size: u16,
    pub syn: bool,
    pub ack: bool,
    pub fin: bool,
    pub rst: bool,
}

/// An inbound datagram taken apart: both headers and the offset at which
/// the TCP payload starts.
#[derive(Clone, Copy, Debug, PartialEq, Eq, Structural)]
pub struct Parsed {
    pub ip: Ipv4Fields,
    pub tcp: TcpFields,
    pub data_start: usize,
}

/// Two bytes read as a big-endian number.
pub open spec fn be16(b0: u8, b1: u8) -> u16 {
    (b0 as int * 0x100 + b1 as int) as u16
}

/// Four bytes read as a big-endian number.
pub open spec fn be32(b0: u8, b1: u8, b2: u8, b3: u8) -> u32 {
    (b0 as int * 0x100_0000 + b1 as int * 0x1_0000 + b2 as int * 0x100 + b3 as int) as u32
}

/// Length in bytes that an IPv4 header announces for itself: the low
/// nibble of its first byte, in words of four bytes.
pub open spec fn ipv4_header_len(b: Seq<u8>) -> int {
    (b[0] as int % 16) * 4
}

/// The bytes start with a well-formed IPv4 header: version 4, a header of
/// at least five words that the bytes hold in full, and a total length
/// that covers the header.
pub open spec fn ipv4_parses(b: Seq<u8>) -> bool {
    &&& b.len() >= IP_HEADER_LEN
    &&& b[0] as int / 16 == 4
    &&& b[0] as int % 16 >= 5
    &&& b.len() >= ipv4_header_len(b)
    &&& be16(b[2], b[3]) >= ipv4_header_len(b)
}

pub open spec fn ipv4_fields(b: Seq<u8>) -> Ipv4Fields {
    Ipv4Fields {
        protocol: b[9],
        source: be32(b[12], b[13], b[14], b[15]),
        destination: be32(b[16], b[17], b[18], b[19]),
    }
}

/// Length in bytes that a TCP header announces for itself: the high
/// nibble of its thirteenth byte, in words of four bytes.
pub open spec fn tcp_header_len(b: Seq<u8>) -> int {
    (b[12] as int / 16) * 4
}

/// The bytes start with a well-formed TCP header: a data offset of at
/// least five words, held by the bytes in full.
pub open spec fn tcp_parses(b: Seq<u8>) -> bool {
    &&& b.len() >= TCP_HEADER_LEN
    &&& b[12] as int / 16 >= 5
    &&& b.len() >= tcp_header_len(b)
}

pub open spec fn tcp_fields(b: Seq<u8>) -> TcpFields {
    TcpFields {
        source_port: be16(b[0], b[1]),
        destination_port: be16(b[2], b[3]),
        sequence_number: be32(b[4], b[5], b[6], b[7]),
        acknowledgment_number: be32(b[8], b[9], b[10], b[11]),
        window_size: be16(b[14], b[15]),
        fin: b[13] as int % 2 == 1,
        syn: (b[13] as int / 2) % 2 == 1,
        rst: (b[13] as int / 4) % 2 == 1,
        ack: (b[13] as int / 16) % 2 == 1,
    }
}

/// The datagram is one the engine looks at: IPv4, carrying TCP, both
/// headers well formed.
pub open spec fn datagram_parses(b: Seq<u8>) -> bool {
    &&& ipv4_parses(b)
    &&& b[9] == PROTOCOL_TCP
    &&& tcp_parses(b.skip(ipv4_header_len(b)))
}

pub open spec fn parsed(b: Seq<u8>) -> Parsed {
    let rest = b.skip(ipv4_header_len(b));
    Parsed {
        ip: ipv4_fields(b),
        tcp: tcp_fields(rest),
        data_start: (ipv4_header_len(b) + tcp_header_len(rest)) as usize,
    }
}

/// The payload of a datagram that parses: all bytes behind the TCP header.
pub open spec fn payload_of(b: Seq<u8>) -> Seq<u8> {
    b.skip(parsed(b).data_start as int)
}

/// Takes an inbound datagram apart. Datagrams that are not IPv4, do not
/// carry TCP, or whose headers are cut short or malformed give `None`.
pub fn parse_datagram(bytes: &[u8]) -> (r: Option<Parsed>)
    ensures
        r == (if datagram_parses(bytes@) {
            Some(parsed(bytes@))
        } else {
            None::<Parsed>
        }),
        r is Some ==> r->0.data_start <= bytes.len(),
{
    let (ip, ip_len) = match ipv4_from_slice(bytes) {
        Some(found) => found,
        None => {
            return None;
        },
    };
    if ip.protocol != PROTOCOL_TCP {
        return None;
    }
    let rest = &bytes[ip_len..bytes.len()];
    assert(rest@ =~= bytes@.skip(ip_len as int));
    match tcp_from_slice(rest) {
        Some((tcp, tcp_len)) => Some(Parsed { ip, tcp, data_start: ip_len + tcp_len }),
        None => None,
    }
}

/// A 16-bit number as two bytes, the high one first.
pub open spec fn bytes16(x: u16) -> Seq<u8> {
    seq![(x / 0x100) as u8, (x % 0x100) as u8]
}

/// A 32-bit number as four bytes, the highest first.
pub open spec fn bytes32(x: u32) -> Seq<u8> {
    seq![
        (x / 0x100_0000) as u8,
        ((x / 0x1_0000) % 0x100) as u8,
        ((x / 0x100) % 0x100) as u8,
        (x % 0x100) as u8,
    ]
}

/// The checksum of an IPv4 header without options that holds these
/// fields: the nine other 16-bit words of the header are added up, what
/// goes beyond 16 bits is added back in twice over, and the result is
/// complemented.
#[verifier::opaque]
pub open spec fn ipv4_header_checksum(
    payload_len: u16,
    time_to_live: u8,
    protocol: u8,
    source: u32,
    destination: u32,
) -> u16 {
    let sum = 0x4500 + (payload_len + IP_HEADER_LEN) + 0x4000 + (time_to_live * 0x100 + protocol)
        + source / 0x1_0000 + source % 0x1_0000 + destination / 0x1_0000 + destination
        % 0x1_0000;
    let once = sum % 0x1_0000 + sum / 0x1_0000;
    let twice = once % 0x1_0000 + once / 0x1_0000;
    (0xffff - twice) as u16
}

/// The header of an empty segment from 10.0.0.1 to 10.0.0.2 has the
/// checksum 0x26ce.
pub proof fn lemma_header_checksum_example()
    ensures
        ipv4_header_checksum(20, TTL, PROTOCOL_TCP, 0x0a00_0001, 0x0a00_0002) == 0x26ce,
{
    reveal(ipv4_header_checksum);
}

/// The TCP checksum that `etherparse` computes over the IPv4 pseudo
/// header, the TCP header and the payload.
pub uninterp spec fn tcp_checksum(
    source: u32,
    destination: u32,
    header: TcpFields,
    payload: Seq<u8>,
) -> u16;

/// An IPv4 header without options on the wire: version 4 and five words,
/// no service bits, the total length, identification 0, the flag "don't
/// fragment" and offset 0, time to live, protocol, checksum, addresses.
#[verifier::opaque]
pub open spec fn ipv4_header_bytes(
    payload_len: u16,
    time_to_live: u8,
    protocol: u8,
    source: u32,
    destination: u32,
    checksum: u16,
) -> Seq<u8> {
    seq![0x45u8, 0u8] + bytes16((payload_len + IP_HEADER_LEN) as u16) + seq![
        0u8,
        0u8,
        0x40u8,
        0u8,
        time_to_live,
        protocol,
    ] + bytes16(checksum) + bytes32(source) + bytes32(destination)
}

/// The flags of a TCP header as the byte that carries them: FIN 1, SYN 2,
/// RST 4, ACK 16.
pub open spec fn flag_byte(h: TcpFields) -> u8 {
    ((if h.fin {
        1int
    } else {
        0
    }) + (if h.syn {
        2int
    } else {
        0
    }) + (if h.rst {
        4int
    } else {
        0
    }) + (if h.ack {
        16int
    } else {
        0
    })) as u8
}

/// A TCP header without options on the wire: ports, sequence and
/// acknowledgment number, a data offset of five words, the flags, window,
/// checksum, and an urgent pointer of 0.
#[verifier::opaque]
pub open spec fn tcp_header_bytes(h: TcpFields, checksum: u16) -> Seq<u8> {
    bytes16(h.source_port) + bytes16(h.destination_port) + bytes32(h.sequence_number) + bytes32(
        h.acknowledgment_number,
    ) + seq![0x50u8, flag_byte(h)] + bytes16(h.window_size) + bytes16(checksum) + seq![0u8, 0u8]
}

/// The datagram that carries one TCP segment from `source` to
/// `destination`: IPv4 header, TCP header with its checksum, payload.
pub open spec fn segment_bytes(
    source: u32,
    destination: u32,
    header: TcpFields,
    payload: Seq<u8>,
) -> Seq<u8> {
    let ip_payload = (TCP_HEADER_LEN + payload.len()) as u16;
    ipv4_header_bytes(
        ip_payload,
        TTL,
        PROTOCOL_TCP,
        source,
        destination,
        ipv4_header_checksum(ip_payload, TTL, PROTOCOL_TCP, source, destination),
    ) + tcp_header_bytes(header, tcp_checksum(source, destination, header, payload)) + payload
}

/// Two bytes written for a number read back as that number.
pub proof fn lemma_bytes16_read_back(x: u16)
    ensures
        bytes16(x).len() == 2,
        be16(bytes16(x)[0], bytes16(x)[1]) == x,
{
}

/// Four bytes written for a number read back as that number.
pub proof fn lemma_bytes32_read_back(x: u32)
    ensures
        bytes32(x).len() == 4,
        be32(bytes32(x)[0], bytes32(x)[1], bytes32(x)[2], bytes32(x)[3]) == x,
{
}

/// An emitted datagram reads back as the segment it was built from: it
/// parses, with the addresses and the header fields it was given, and its
/// payload starts behind forty bytes of headers.
pub proof fn lemma_segment_reads_back(
    source: u32,
    destination: u32,
    header: TcpFields,
    payload: Seq<u8>,
)
    requires
        payload.len() <= MAX_IP_PAYLOAD,
    ensures
        segment_bytes(source, destination, header, payload).len() == IP_HEADER_LEN
            + TCP_HEADER_LEN + payload.len(),
        datagram_parses(segment_bytes(source, destination, header, payload)),
        parsed(segment_bytes(source, destination, header, payload)) == (Parsed {
            ip: Ipv4Fields { protocol: PROTOCOL_TCP, source, destination },
            tcp: header,
            data_start: 40,
        }),
        payload_of(segment_bytes(source, destination, header, payload)) == payload,
{
    reveal(ipv4_header_bytes);
    reveal(tcp_header_bytes);
    let b = segment_bytes(source, destination, header, payload);
    let ip_payload = (TCP_HEADER_LEN + payload.len()) as u16;
    let ip_sum = ipv4_header_checksum(ip_payload, TTL, PROTOCOL_TCP, source, destination);
    let ip = ipv4_header_bytes(ip_payload, TTL, PROTOCOL_TCP, source, destination, ip_sum);
    let sum = tcp_checksum(source, destination, header, payload);
    let tcp = tcp_header_bytes(header, sum);
    let total = (ip_payload + IP_HEADER_LEN) as u16;
    lemma_bytes16_read_back(total);
    lemma_bytes16_read_back(ip_sum);
    lemma_bytes32_read_back(source);
    lemma_bytes32_read_back(destination);
    lemma_bytes16_read_back(header.source_port);
    lemma_bytes16_read_back(header.destination_port);
    lemma_bytes32_read_back(header.sequence_number);
    lemma_bytes32_read_back(header.acknowledgment_number);
    lemma_bytes16_read_back(header.window_size);
    lemma_bytes16_read_back(sum);
    assert(ip.len() == 20);
    assert(tcp.len() == 20);
    assert(ip[0] == 0x45 && ip[9] == PROTOCOL_TCP);
    assert(ip[2] == bytes16(total)[0] && ip[3] == bytes16(total)[1]);
    assert(ip[12] == bytes32(source)[0] && ip[13] == bytes32(source)[1] && ip[14] == bytes32(
        source,
    )[2] && ip[15] == bytes32(source)[3]);
    assert(ip[16] == bytes32(destination)[0] && ip[17] == bytes32(destination)[1] && ip[18]
        == bytes32(destination)[2] && ip[19] == bytes32(destination)[3]);
    assert(tcp[0] == bytes16(header.source_port)[0] && tcp[1] == bytes16(header.source_port)[1]);
    assert(tcp[2] == bytes16(header.destination_port)[0] && tcp[3] == bytes16(
        header.destination_port,
    )[1]);
    assert(tcp[4] == bytes32(header.sequence_number)[0] && tcp[5] == bytes32(
        header.sequence_number,
    )[1] && tcp[6] == bytes32(header.sequence_number)[2] && tcp[7] == bytes32(
        header.sequence_number,
    )[3]);
    assert(tcp[8] == bytes32(header.acknowledgment_number)[0] && tcp[9] == bytes32(
        header.acknowledgment_number,
    )[1] && tcp[10] == bytes32(header.acknowledgment_number)[2] && tcp[11] == bytes32(
        header.acknowledgment_number,
    )[3]);
    assert(tcp[12] == 0x50 && tcp[13] == flag_byte(header));
    assert(tcp[14] == bytes16(header.window_size)[0] && tcp[15] == bytes16(header.window_size)[1]);
    assert(b.len() == 40 + payload.len());
    assert forall|i: int| 0 <= i < 20 implies b[i] == ip[i] by {}
    let rest = b.skip(20);
    assert forall|i: int| 0 <= i < 20 implies rest[i] == tcp[i] by {}
    assert(ipv4_header_len(b) == 20);
    assert(tcp_header_len(rest) == 20);
    assert(tcp_fields(rest) == header);
    assert(b.skip(40) =~= payload);
}

/// Builds the datagram that carries one TCP segment.
pub fn encode_segment(source: u32, destination: u32, header: &TcpFields, payload: &[u8]) -> (out:
    Vec<u8>)
    requires
        payload.len() <= MAX_IP_PAYLOAD,
    ensures
        out@ == segment_bytes(source, destination, *header, payload@),
        out@.len() == IP_HEADER_LEN + TCP_HEADER_LEN + payload@.len(),
{
    let ip_payload: u16 = (TCP_HEADER_LEN + payload.len()) as u16;
    let mut out = write_ipv4_header(ip_payload, TTL, PROTOCOL_TCP, source, destination);
    assert(out@.len() == IP_HEADER_LEN) by {
        reveal(ipv4_header_bytes);
    }
    let checksum = checksum_ipv4(source, destination, header, payload);
    let mut tcp = write_tcp_header(header, checksum);
    assert(tcp@.len() == TCP_HEADER_LEN) by {
        reveal(tcp_header_bytes);
    }
    out.append(&mut tcp);
    out.extend_from_slice(payload);
    out
}

/// `etherparse::Ipv4HeaderSlice::from_slice`, with the fields read through
/// the accessors of the slice it returns. The call succeeds exactly on
/// bytes that `ipv4_parses` admits; the fields then sit at their fixed
/// offsets, and the second component is the length of the header.
#[verifier::external_body]
fn ipv4_from_slice(bytes: &[u8]) -> (r: Option<(Ipv4Fields, usize)>)
    ensures
        r == (if ipv4_parses(bytes@) {
            Some((ipv4_fields(bytes@), ipv4_header_len(bytes@) as usize))
        } else {
            None::<(Ipv4Fields, usize)>
        }),
{
    match etherparse::Ipv4HeaderSlice::from_slice(bytes) {
        Ok(h) => {
            let (s, d) = (h.source(), h.destination());
            let source = u32::from_be_bytes([s[0], s[1], s[2], s[3]]);
            let destination = u32::from_be_bytes([d[0], d[1], d[2], d[3]]);
            Some((Ipv4Fields { protocol: h.protocol(), source, destination }, h.slice().len()))
        },
        Err(_) => None,
    }
}

/// `etherparse::TcpHeaderSlice::from_slice`, with the fields read through
/// the accessors of the slice it returns. The call succeeds exactly on
/// bytes that `tcp_parses` admits; the fields then sit at their fixed
/// offsets, and the second component is the length of the header.
#[verifier::external_body]
fn tcp_from_slice(bytes: &[u8]) -> (r: Option<(TcpFields, usize)>)
    ensures
        r == (if tcp_parses(bytes@) {
            Some((tcp_fields(bytes@), tcp_header_len(bytes@) as usize))
        } else {
            None::<(TcpFields, usize)>
        }),
{
    let h = etherparse::TcpHeaderSlice::from_slice(bytes).ok()?;
    let (source_port, destination_port) = (h.source_port(), h.destination_port());
    let (sequence_number, acknowledgment_number) = (h.sequence_number(), h.acknowledgment_number());
    let (syn, ack, fin, rst, window_size) = (h.syn(), h.ack(), h.fin(), h.rst(), h.window_size());
    let f = TcpFields {
        source_port, destination_port, sequence_number, acknowledgment_number,
        window_size, syn, ack, fin, rst,
    };
    Some((f, h.slice().len()))
}

/// `etherparse::Ipv4Header::write` on a header without options that holds
/// the given fields and the defaults of `Ipv4Header::default` elsewhere.
/// It writes the twenty bytes of `ipv4_header_bytes`, with the checksum
/// that it computes over the other eighteen, which is
/// `ipv4_header_checksum`. The write fails only for a payload length that
/// does not fit the total-length field, which `requires` leaves out.
#[verifier::external_body]
fn write_ipv4_header(
    payload_len: u16,
    time_to_live: u8,
    protocol: u8,
    source: u32,
    destination: u32,
) -> (out: Vec<u8>)
    requires
        payload_len <= 65515,
    ensures
        out@ == ipv4_header_bytes(
            payload_len,
            time_to_live,
            protocol,
            source,
            destination,
            ipv4_header_checksum(payload_len, time_to_live, protocol, source, destination),
        ),
{
    let mut h = etherparse::Ipv4Header::default();
    h.payload_len = payload_len;
    h.time_to_live = time_to_live;
    h.protocol = protocol;
    h.source = source.to_be_bytes();
    h.destination = destination.to_be_bytes();
    let mut out = Vec::new();
    h.write(&mut out).unwrap();
    out
}

/// `etherparse::TcpHeader::calc_checksum_ipv4_raw` on a header without
/// options that holds the given fields. The result depends on the
/// addresses, the fields and the payload alone; the call fails only when
/// header and payload together exceed 65535 bytes, which `requires` leaves
/// out.
#[verifier::external_body]
fn checksum_ipv4(source: u32, destination: u32, f: &TcpFields, payload: &[u8]) -> (sum: u16)
    requires
        payload.len() <= MAX_IP_PAYLOAD,
    ensures
        sum == tcp_checksum(source, destination, *f, payload@),
{
    let mut h = etherparse::TcpHeader::new(
        f.source_port,
        f.destination_port,
        f.sequence_number,
        f.window_size,
    );
    h.acknowledgment_number = f.acknowledgment_number;
    (h.syn, h.ack, h.fin, h.rst) = (f.syn, f.ack, f.fin, f.rst);
    h.calc_checksum_ipv4_raw(source.to_be_bytes(), destination.to_be_bytes(), payload).unwrap()
}

/// `etherparse::TcpHeader::write` on a header without options that holds
/// the given fields and checksum. It writes the twenty bytes of
/// `tcp_header_bytes`; writing into a vector does not fail.
#[verifier::external_body]
fn write_tcp_header(f: &TcpFields, checksum: u16) -> (out: Vec<u8>)
    ensures
        out@ == tcp_header_bytes(*f, checksum),
{
    let mut h = etherparse::TcpHeader::new(
        f.source_port,
        f.destination_port,
        f.sequence_number,
        f.window_size,
    );
    h.acknowledgment_number = f.acknowledgment_number;
    (h.syn, h.ack, h.fin, h.rst, h.checksum) = (f.syn, f.ack, f.fin, f.rst, checksum);
    let mut out = Vec::new();
    h.write(&mut out).unwrap();
    out
}

} // verus!
