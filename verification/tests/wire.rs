use tcpm::wire::{encode_segment, parse_datagram, Ipv4Fields, TcpFields};

const PEER: u32 = 0x0a00_0002;
const LOCAL: u32 = 0x0a00_0001;

fn header(seq: u32, ack: u32) -> TcpFields {
    TcpFields {
        source_port: 1234,
        destination_port: 8010,
        sequence_number: seq,
        acknowledgment_number: ack,
        window_size: 4096,
        syn: false,
        ack: false,
        fin: false,
        rst: false,
    }
}

#[test]
fn encode_then_parse_gives_the_fields_back() {
    let mut h = header(0x0102_0304, 0x0a0b_0c0d);
    h.syn = true;
    h.ack = true;
    let bytes = encode_segment(PEER, LOCAL, &h, b"hello");
    let p = parse_datagram(&bytes).unwrap();
    assert_eq!(p.ip, Ipv4Fields { protocol: 6, source: PEER, destination: LOCAL });
    assert_eq!(p.tcp, h);
    assert_eq!(p.data_start, 40);
    assert_eq!(&bytes[p.data_start..], b"hello");
}

#[test]
fn each_flag_travels_on_its_own() {
    for k in 0..4 {
        let mut h = header(1, 2);
        h.syn = k == 0;
        h.ack = k == 1;
        h.fin = k == 2;
        h.rst = k == 3;
        let bytes = encode_segment(PEER, LOCAL, &h, &[]);
        assert_eq!(parse_datagram(&bytes).unwrap().tcp, h);
    }
}

#[test]
fn encoded_segment_is_headers_and_payload() {
    let bytes = encode_segment(LOCAL, PEER, &header(1, 106), b"world");
    assert_eq!(bytes.len(), 45);
    assert_eq!(&bytes[40..], b"world");
}

#[test]
fn ipv4_header_bytes_are_exact() {
    let bytes = encode_segment(LOCAL, PEER, &header(0, 0), &[]);
    let expected: [u8; 20] = [
        0x45, 0x00, 0x00, 0x28, 0x00, 0x00, 0x40, 0x00, 0x40, 0x06, 0x26, 0xce, 0x0a, 0x00, 0x00,
        0x01, 0x0a, 0x00, 0x00, 0x02,
    ];
    assert_eq!(&bytes[..20], &expected);
}

#[test]
fn tcp_header_bytes_are_exact() {
    let mut h = header(0x0000_0001, 0x0000_006a);
    h.ack = true;
    h.fin = true;
    h.window_size = 1024;
    let bytes = encode_segment(LOCAL, PEER, &h, &[]);
    // ports, numbers, data offset 5, flags FIN|ACK, window
    let expected: [u8; 16] = [
        0x04, 0xd2, 0x1f, 0x4a, 0x00, 0x00, 0x00, 0x01, 0x00, 0x00, 0x00, 0x6a, 0x50, 0x11, 0x04,
        0x00,
    ];
    assert_eq!(&bytes[20..36], &expected);
    // urgent pointer
    assert_eq!(&bytes[38..40], &[0, 0]);
}

#[test]
fn encoded_segment_is_what_etherparse_builds() {
    let mut h = header(77, 106);
    h.ack = true;
    let ours = encode_segment(LOCAL, PEER, &h, b"some payload");
    let mut theirs = Vec::new();
    etherparse::PacketBuilder::ipv4([10, 0, 0, 1], [10, 0, 0, 2], 64)
        .tcp(1234, 8010, 77, 4096)
        .ack(106)
        .write(&mut theirs, b"some payload")
        .unwrap();
    assert_eq!(ours, theirs);
}

#[test]
fn checksum_depends_on_the_payload() {
    let h = header(1, 1);
    let a = encode_segment(LOCAL, PEER, &h, b"a");
    let b = encode_segment(LOCAL, PEER, &h, b"b");
    assert_ne!(&a[36..38], &b[36..38]);
}

#[test]
fn checksum_verifies_against_the_header_read_back() {
    let mut h = header(5, 9);
    h.ack = true;
    let bytes = encode_segment(LOCAL, PEER, &h, b"abc");
    let ip = etherparse::Ipv4HeaderSlice::from_slice(&bytes).unwrap();
    let tcp = etherparse::TcpHeaderSlice::from_slice(&bytes[20..]).unwrap();
    assert_eq!(tcp.calc_checksum_ipv4(&ip, &bytes[40..]).unwrap(), tcp.checksum());
    assert_eq!(ip.to_header().calc_header_checksum().unwrap(), ip.header_checksum());
}

#[test]
fn parse_rejects_short_datagrams() {
    let bytes = encode_segment(PEER, LOCAL, &header(1, 1), &[]);
    assert_eq!(parse_datagram(&[]), None);
    assert_eq!(parse_datagram(&bytes[..19]), None);
    assert_eq!(parse_datagram(&bytes[..20]), None);
    assert_eq!(parse_datagram(&bytes[..39]), None);
    assert!(parse_datagram(&bytes[..40]).is_some());
}

#[test]
fn parse_rejects_other_ip_versions() {
    let mut bytes = encode_segment(PEER, LOCAL, &header(1, 1), &[]);
    bytes[0] = 0x65;
    assert_eq!(parse_datagram(&bytes), None);
}

#[test]
fn parse_rejects_other_protocols() {
    let mut bytes = encode_segment(PEER, LOCAL, &header(1, 1), &[]);
    bytes[9] = 17;
    assert_eq!(parse_datagram(&bytes), None);
}

#[test]
fn parse_rejects_a_short_ip_header_length() {
    let mut bytes = encode_segment(PEER, LOCAL, &header(1, 1), &[]);
    bytes[0] = 0x44;
    assert_eq!(parse_datagram(&bytes), None);
}

#[test]
fn parse_rejects_a_total_length_below_the_header() {
    let mut bytes = encode_segment(PEER, LOCAL, &header(1, 1), &[]);
    bytes[2] = 0;
    bytes[3] = 19;
    assert_eq!(parse_datagram(&bytes), None);
}

#[test]
fn parse_rejects_a_short_tcp_data_offset() {
    let mut bytes = encode_segment(PEER, LOCAL, &header(1, 1), &[]);
    bytes[32] = 0x40;
    assert_eq!(parse_datagram(&bytes), None);
}

#[test]
fn parse_skips_ip_and_tcp_options() {
    // IPv4 header of six words, TCP header of six words, two bytes of payload
    let mut bytes = vec![0u8; 24 + 24 + 2];
    bytes[0] = 0x46;
    bytes[3] = 50;
    bytes[9] = 6;
    bytes[12..16].copy_from_slice(&[10, 0, 0, 2]);
    bytes[16..20].copy_from_slice(&[10, 0, 0, 1]);
    let t = 24;
    bytes[t..t + 2].copy_from_slice(&1234u16.to_be_bytes());
    bytes[t + 2..t + 4].copy_from_slice(&8010u16.to_be_bytes());
    bytes[t + 4..t + 8].copy_from_slice(&100u32.to_be_bytes());
    bytes[t + 12] = 0x60;
    bytes[t + 13] = 0x02;
    bytes[t + 14..t + 16].copy_from_slice(&4096u16.to_be_bytes());
    bytes[48] = b'h';
    bytes[49] = b'i';
    let p = parse_datagram(&bytes).unwrap();
    assert_eq!(p.data_start, 48);
    assert_eq!(p.ip.source, PEER);
    assert_eq!(p.ip.destination, LOCAL);
    assert_eq!(p.tcp.source_port, 1234);
    assert_eq!(p.tcp.destination_port, 8010);
    assert_eq!(p.tcp.sequence_number, 100);
    assert_eq!(p.tcp.window_size, 4096);
    assert!(p.tcp.syn && !p.tcp.ack && !p.tcp.fin && !p.tcp.rst);
}

#[test]
fn parse_rejects_a_tcp_header_cut_short_by_its_options() {
    let mut bytes = encode_segment(PEER, LOCAL, &header(1, 1), &[]);
    bytes[32] = 0x60;
    assert_eq!(parse_datagram(&bytes), None);
}

/// The sum of the nine other words of the header, folded and
/// complemented.
fn header_checksum(payload_len: u16, ttl: u8, protocol: u8, source: u32, destination: u32) -> u16 {
    let sum: u32 = 0x4500
        + (payload_len as u32 + 20)
        + 0x4000
        + (ttl as u32 * 0x100 + protocol as u32)
        + source / 0x1_0000
        + source % 0x1_0000
        + destination / 0x1_0000
        + destination % 0x1_0000;
    let once = sum % 0x1_0000 + sum / 0x1_0000;
    let twice = once % 0x1_0000 + once / 0x1_0000;
    (0xffff - twice) as u16
}

#[test]
fn ipv4_header_checksum_is_the_folded_sum_of_the_header_words() {
    let cases: [(u32, u32, usize); 6] = [
        (LOCAL, PEER, 0),
        (0xc0a8_0101, 0xc0a8_0102, 5),
        (0xffff_ffff, 0xffff_ffff, 1460),
        (0, 0, 1),
        (0xffff_0000, 0x0000_ffff, 1000),
        (0x7f00_0001, 0xe000_00fb, 65495),
    ];
    for (source, destination, len) in cases {
        let bytes = encode_segment(source, destination, &header(1, 2), &vec![0u8; len]);
        let expected = header_checksum((20 + len) as u16, 64, 6, source, destination);
        assert_eq!(&bytes[10..12], &expected.to_be_bytes());
    }
    assert_eq!(header_checksum(20, 64, 6, LOCAL, PEER), 0x26ce);
}
