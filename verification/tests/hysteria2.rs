use rust_proxy_server::address::{Address, NetLocation, SocketAddr};
use rust_proxy_server::error::{Error, ErrorKind};
use rust_proxy_server::hysteria2::auth::{
    auth_connection, auth_outcome, auth_response, generate_ascii_string, validate_auth_parts,
    validate_auth_request, AuthOutcome, AuthRequest,
};
use rust_proxy_server::hysteria2::{configured_alpn, ends_well, AcceptEnd};
use rust_proxy_server::hysteria2::tcp::{
    handle_tcp_header, process_tcp_stream, random_tcp_response, tcp_response, SetupResult, TcpPlan,
};
use rust_proxy_server::hysteria2::udp::{
    parse_udp_datagram, Assembly, Delivery, Fragments, RemoteToLocal, UdpDatagram, UdpSessions,
    UdpStep,
};
use rust_proxy_server::hysteria2::varint::{decode_varint, encode_varint, read_varint};
use rust_proxy_server::stream_reader::StreamReader;

// ------------------------------ varint ------------------------------

#[test]
fn varints_have_four_lengths() {
    assert_eq!(encode_varint(0), Ok(vec![0]));
    assert_eq!(encode_varint(63), Ok(vec![63]));
    assert_eq!(encode_varint(64), Ok(vec![0x40, 64]));
    assert_eq!(encode_varint(0x401), Ok(vec![0x44, 0x01]));
    assert_eq!(encode_varint(16383), Ok(vec![0x7f, 0xff]));
    assert_eq!(encode_varint(16384), Ok(vec![0x80, 0, 0x40, 0]));
    assert_eq!(encode_varint((1 << 30) - 1), Ok(vec![0xbf, 0xff, 0xff, 0xff]));
    assert_eq!(encode_varint(1 << 30), Ok(vec![0xc0, 0, 0, 0, 0x40, 0, 0, 0]));
    assert_eq!(
        encode_varint((1 << 62) - 1),
        Ok(vec![0xff, 0xff, 0xff, 0xff, 0xff, 0xff, 0xff, 0xff])
    );
    assert_eq!(encode_varint(1 << 62), Err(Error::VarintTooLarge));
}

#[test]
fn varints_read_back() {
    for v in [0, 1, 63, 64, 1000, 16383, 16384, 1 << 29, 1 << 30, 1 << 45, (1 << 62) - 1] {
        let mut bytes = encode_varint(v).unwrap();
        let n = bytes.len();
        bytes.push(0xee);
        assert_eq!(decode_varint(&bytes), Some((v, n)));
        assert_eq!(decode_varint(&bytes[..n - 1]), None);
    }
    // Longer forms than needed are read as well.
    assert_eq!(decode_varint(&[0x40, 5]), Some((5, 2)));
}

#[test]
fn varints_are_read_from_a_stream() {
    let mut r = StreamReader::new_with_buffer_size(16);
    r.spare().unwrap()[..1].copy_from_slice(&[0x44]);
    r.filled(1).unwrap();
    assert_eq!(read_varint(&mut r), None);
    r.spare().unwrap()[..2].copy_from_slice(&[0x01, 9]);
    r.filled(2).unwrap();
    assert_eq!(read_varint(&mut r), Some(0x401));
    assert_eq!(r.unparsed_data(), &[9]);
}

// ------------------------------- auth -------------------------------

fn request(uri: &str, method: &str, auth: Option<&[u8]>) -> AuthRequest {
    let mut headers = vec![("host".to_string(), b"hysteria".to_vec())];
    if let Some(value) = auth {
        headers.push(("hysteria-auth".to_string(), value.to_vec()));
    }
    AuthRequest { uri: uri.to_string(), method: method.to_string(), headers }
}

#[test]
fn the_right_request_is_accepted() {
    let r = request("https://hysteria/auth", "POST", Some(b"secret"));
    assert_eq!(validate_auth_request(&r, "secret"), Ok(()));
    // The case of the scheme and of the host does not matter.
    let r = request("HTTPS://Hysteria/auth", "POST", Some(b"secret"));
    assert_eq!(validate_auth_request(&r, "secret"), Ok(()));
}

#[test]
fn other_requests_are_refused() {
    let cases: [(AuthRequest, Error); 8] = [
        (request("https://hysteria/", "POST", Some(b"secret")), Error::UnexpectedUri),
        (request("https://hysteria/AUTH", "POST", Some(b"secret")), Error::UnexpectedUri),
        (request("https://hysteria/auth?a", "POST", Some(b"secret")), Error::UnexpectedUri),
        (request("not a uri", "POST", Some(b"secret")), Error::UnexpectedUri),
        (request("https://hysteria/auth", "GET", Some(b"secret")), Error::UnexpectedMethod),
        (request("https://hysteria/auth", "POST", None), Error::MissingAuthHeader),
        (request("https://hysteria/auth", "POST", Some(b"sec\x80ret")), Error::InvalidAuthHeader),
        (request("https://hysteria/auth", "POST", Some(b"Secret")), Error::IncorrectPassword),
    ];
    for (r, e) in cases {
        assert_eq!(validate_auth_request(&r, "secret"), Err(e));
    }
}

#[test]
fn the_verdict_takes_the_comparison_as_it_is() {
    let r = request("anything", "POST", Some(b"p\tw"));
    assert_eq!(validate_auth_parts(true, &r, "p\tw"), Ok(()));
    assert_eq!(validate_auth_parts(false, &r, "p\tw"), Err(Error::UnexpectedUri));
}

#[test]
fn the_first_header_counts() {
    let mut r = request("https://hysteria/auth", "POST", Some(b"a"));
    r.headers.push(("hysteria-auth".to_string(), b"b".to_vec()));
    assert_eq!(validate_auth_request(&r, "a"), Ok(()));
    assert_eq!(validate_auth_request(&r, "b"), Err(Error::IncorrectPassword));
}

#[test]
fn answers_to_requests() {
    let ok = auth_response(true, true, "abc".to_string());
    assert_eq!(ok.status, 233);
    assert_eq!(
        ok.headers,
        vec![
            ("Hysteria-UDP".to_string(), "true".to_string()),
            ("Hysteria-CC-RX".to_string(), "0".to_string()),
            ("Hysteria-Padding".to_string(), "abc".to_string()),
        ]
    );
    assert_eq!(auth_response(true, false, String::new()).headers[0].1, "false");
    let refused = auth_response(false, true, "abc".to_string());
    assert_eq!(refused.status, 404);
    assert!(refused.headers.is_empty());
}

#[test]
fn requests_are_judged_and_answered() {
    let right = request("https://hysteria/auth", "POST", Some(b"pw"));
    let step = auth_connection(Some(&right), "pw", true).ok().unwrap();
    assert_eq!(step.verdict, Ok(()));
    assert_eq!(step.response.status, 233);
    let padding = &step.response.headers[2].1;
    assert!(!padding.is_empty() && padding.len() < 80);
    let wrong = request("https://hysteria/auth", "POST", Some(b"no"));
    let step = auth_connection(Some(&wrong), "pw", true).ok().unwrap();
    assert_eq!(step.verdict, Err(Error::IncorrectPassword));
    assert_eq!(step.response.status, 404);
    assert!(matches!(auth_connection(None, "pw", true), Err(Error::NoStreams)));
    assert_eq!(Error::NoStreams.kind(), ErrorKind::UnexpectedEof);
}

#[test]
fn padding_is_random_text() {
    let mut texts = Vec::new();
    for _ in 0..20 {
        let s = generate_ascii_string();
        assert!(!s.is_empty() && s.len() < 80);
        assert!(s.bytes().all(|b| b.is_ascii_alphanumeric()));
        texts.push(s);
    }
    assert!(texts.iter().any(|s| *s != texts[0]));
}

#[test]
fn connections_end_with_their_authentication() {
    assert_eq!(auth_outcome(Some(true)), AuthOutcome::Serve);
    assert_eq!(auth_outcome(Some(false)), AuthOutcome::CloseFailed);
    assert_eq!(auth_outcome(None), AuthOutcome::CloseTimeout);
}

#[test]
fn closed_connections_are_no_errors() {
    assert!(ends_well(AcceptEnd::ApplicationClosed));
    assert!(ends_well(AcceptEnd::ConnectionClosed));
    assert!(!ends_well(AcceptEnd::Failed));
}

#[test]
fn alpn_has_a_default() {
    assert_eq!(configured_alpn(Vec::new()), vec!["h3".to_string()]);
    assert_eq!(configured_alpn(vec!["x".to_string()]), vec!["x".to_string()]);
}

// ------------------------------- TCP --------------------------------

fn tcp_request(address: &[u8], padding: usize) -> Vec<u8> {
    let mut d = encode_varint(0x401).unwrap();
    d.extend(encode_varint(address.len() as u64).unwrap());
    d.extend_from_slice(address);
    d.extend(encode_varint(padding as u64).unwrap());
    d.extend(vec![7; padding]);
    d
}

fn push(reader: &mut StreamReader, data: &[u8]) {
    reader.spare().unwrap()[..data.len()].copy_from_slice(data);
    reader.filled(data.len()).unwrap();
}

fn tcp_result(data: &[u8]) -> Result<Option<NetLocation>, Error> {
    let mut r = StreamReader::new_with_buffer_size(8192);
    push(&mut r, data);
    handle_tcp_header(&mut r)
}

#[test]
fn tcp_requests_are_read_byte_by_byte() {
    let mut d = tcp_request(b"example.com:443", 300);
    let n = d.len();
    d.extend_from_slice(b"hello");
    let mut r = StreamReader::new_with_buffer_size(8192);
    for (i, b) in d.iter().enumerate() {
        push(&mut r, &[*b]);
        if i + 1 < n {
            assert_eq!(handle_tcp_header(&mut r), Ok(None));
        } else if i + 1 == n {
            let l = handle_tcp_header(&mut r).unwrap().unwrap();
            assert_eq!(l.to_string(), "example.com:443");
        }
    }
    assert_eq!(r.unparsed_data(), b"hello");
}

#[test]
fn bad_tcp_requests_are_refused() {
    assert_eq!(tcp_result(&[0x44, 0x02]), Err(Error::InvalidRequestId));
    assert_eq!(tcp_result(&[0x44, 0x01, 0x48, 0x01]), Err(Error::InvalidAddressLength));
    assert_eq!(tcp_result(&tcp_request(&[0xff], 0)), Err(Error::InvalidAddressEncoding));
    assert_eq!(tcp_result(&tcp_request(b"example.com", 0)), Err(Error::MissingPort));
    assert_eq!(tcp_result(&tcp_request(b"a:b", 0)), Err(Error::InvalidLocation));
    let mut d = tcp_request(b"a:1", 0);
    d.pop();
    d.extend(encode_varint(4097).unwrap());
    assert_eq!(tcp_result(&d), Err(Error::InvalidPaddingLength));
}

#[test]
fn tcp_answers() {
    assert_eq!(tcp_response(&[1, 2, 3]), vec![0, 0, 3, 1, 2, 3]);
    assert_eq!(tcp_response(&[]), vec![0, 0, 0]);
    let mut seen = Vec::new();
    for _ in 0..20 {
        let r = random_tcp_response();
        assert!(r.len() >= 3 && r.len() <= 66);
        assert_eq!(&r[..2], &[0, 0]);
        assert_eq!(r[2] as usize, r.len() - 3);
        seen.push(r);
    }
    assert!(seen.iter().any(|r| *r != seen[0]));
    assert!(seen.iter().any(|r| r[3..].iter().any(|b| *b != 0)));
}

#[test]
fn tcp_streams_are_relayed_or_given_up() {
    let mut r = StreamReader::new();
    assert!(matches!(process_tcp_stream(SetupResult::Connected, &r), TcpPlan::Relay(None)));
    push(&mut r, &[1, 2]);
    match process_tcp_stream(SetupResult::Connected, &r) {
        TcpPlan::Relay(Some(data)) => assert_eq!(data, vec![1, 2]),
        _ => panic!("data was due"),
    }
    assert!(matches!(process_tcp_stream(SetupResult::TimedOut, &r), TcpPlan::GiveUpTimedOut));
    assert!(matches!(process_tcp_stream(SetupResult::Failed, &r), TcpPlan::GiveUp));
}

// ------------------------------- UDP --------------------------------

fn datagram(session: u32, packet: u16, id: u8, count: u8, address: &[u8], payload: &[u8]) -> Vec<u8> {
    let mut d = session.to_be_bytes().to_vec();
    d.extend_from_slice(&packet.to_be_bytes());
    d.extend_from_slice(&[id, count]);
    d.extend(encode_varint(address.len() as u64).unwrap());
    d.extend_from_slice(address);
    d.extend_from_slice(payload);
    d
}

fn parsed(session: u32, packet: u16, id: u8, count: u8, payload: &[u8]) -> UdpDatagram {
    parse_udp_datagram(&datagram(session, packet, id, count, b"1.2.3.4:5", payload)).unwrap()
}

#[test]
fn datagrams_are_parsed() {
    let d = parse_udp_datagram(&datagram(0x01020304, 0x0506, 7, 8, b"h.x:53", b"data")).unwrap();
    assert_eq!(d.session_id, 0x01020304);
    assert_eq!(d.packet_id, 0x0506);
    assert_eq!((d.fragment_id, d.fragment_count), (7, 8));
    assert_eq!(d.remote_location.to_string(), "h.x:53");
    assert_eq!(d.payload, b"data");
}

#[test]
fn bad_datagrams_are_ignored() {
    let empty_address = datagram(1, 1, 0, 1, b"", b"data");
    let long_address = datagram(1, 1, 0, 1, &vec![b'a'; 2049], b"");
    let not_utf8 = datagram(1, 1, 0, 1, &[0xff, b':', b'1'], b"");
    let no_port = datagram(1, 1, 0, 1, b"host", b"");
    let mut cut = datagram(1, 1, 0, 1, b"host:1", b"");
    cut.pop();
    let cut_varint = [0, 0, 0, 1, 0, 1, 0, 1, 0xc0];
    for d in [
        &empty_address[..],
        &long_address[..],
        &not_utf8[..],
        &no_port[..],
        &cut[..],
        &cut_varint[..],
        &[0; 8][..],
    ] {
        assert!(parse_udp_datagram(d).is_none());
    }
}

#[test]
fn fragments_come_in_any_order() {
    for order in [[0u8, 1, 2], [2, 1, 0], [1, 2, 0]] {
        let mut f = Fragments::new();
        for (k, id) in order.iter().enumerate() {
            let part = [*id * 2, *id * 2 + 1];
            match f.receive(parsed(1, 9, *id, 3, &part)) {
                Assembly::Complete(payload, location) => {
                    assert_eq!(k, 2);
                    assert_eq!(payload, vec![0, 1, 2, 3, 4, 5]);
                    assert_eq!(location.to_string(), "1.2.3.4:5");
                }
                Assembly::Pending => assert!(k < 2),
                Assembly::Dropped => panic!("nothing was to be dropped"),
            }
        }
    }
}

#[test]
fn single_fragments_are_complete() {
    let mut f = Fragments::new();
    assert!(matches!(f.receive(parsed(1, 1, 9, 1, b"x")), Assembly::Complete(p, _) if p == b"x"));
    assert!(matches!(f.receive(parsed(1, 1, 0, 0, b"x")), Assembly::Dropped));
}

#[test]
fn contradictory_fragments_drop_the_packet() {
    // A fragment that arrives twice.
    let mut f = Fragments::new();
    assert!(matches!(f.receive(parsed(1, 1, 0, 2, b"a")), Assembly::Pending));
    assert!(matches!(f.receive(parsed(1, 1, 0, 2, b"a")), Assembly::Dropped));
    assert!(matches!(f.receive(parsed(1, 1, 1, 2, b"b")), Assembly::Pending));
    // Another number of fragments.
    let mut f = Fragments::new();
    assert!(matches!(f.receive(parsed(1, 1, 0, 2, b"a")), Assembly::Pending));
    assert!(matches!(f.receive(parsed(1, 1, 1, 3, b"b")), Assembly::Dropped));
    assert!(matches!(f.receive(parsed(1, 1, 1, 2, b"b")), Assembly::Pending));
    // A fragment beyond the last one changes nothing.
    let mut f = Fragments::new();
    assert!(matches!(f.receive(parsed(1, 1, 0, 2, b"a")), Assembly::Pending));
    assert!(matches!(f.receive(parsed(1, 1, 2, 2, b"z")), Assembly::Dropped));
    assert!(matches!(f.receive(parsed(1, 1, 1, 2, b"b")), Assembly::Complete(p, _) if p == b"ab"));
}

#[test]
fn old_fragments_give_way() {
    let mut f = Fragments::new();
    for id in 0..257u16 {
        assert!(matches!(f.receive(parsed(1, id, 0, 2, b"a")), Assembly::Pending));
    }
    // Packet 0 was used longest ago and is gone; packet 1 is not.
    assert!(matches!(f.receive(parsed(1, 1, 1, 2, b"b")), Assembly::Complete(_, _)));
    assert!(matches!(f.receive(parsed(1, 0, 1, 2, b"b")), Assembly::Pending));
}

#[test]
fn small_packets_take_one_datagram() {
    let mut out = RemoteToLocal::new(7, Some(100), None).unwrap();
    let source = SocketAddr::V4([1, 2, 3, 4], 5);
    assert!(out.has_room(&source));
    let sent = out.forward(b"data", &source).unwrap();
    assert_eq!(sent, vec![datagram(7, 0, 0, 1, b"1.2.3.4:5", b"data")]);
    let sent = out.forward(b"more", &SocketAddr::V6([0; 16], 9, 0)).unwrap();
    assert_eq!(sent, vec![datagram(7, 1, 0, 1, b"[::]:9", b"more")]);
}

#[test]
fn large_packets_are_cut_and_put_together() {
    let location = NetLocation::from_str("host.example:53", None).unwrap();
    let mut out = RemoteToLocal::new(3, Some(40), Some(location)).unwrap();
    let source = SocketAddr::V4([1, 2, 3, 4], 5);
    let payload: Vec<u8> = (0..100).collect();
    let sent = out.forward(&payload, &source).unwrap();
    // 8 bytes of header, 1 of length and 15 of address leave 16 for the payload.
    assert_eq!(sent.len(), 7);
    assert_eq!(sent[0], datagram(3, 0, 0, 7, b"host.example:53", &payload[..16]));
    assert_eq!(sent[6], datagram(3, 0, 6, 7, b"host.example:53", &payload[96..]));
    let mut f = Fragments::new();
    let mut whole = None;
    for d in sent.iter().rev() {
        assert!(d.len() <= 40);
        if let Assembly::Complete(p, l) = f.receive(parse_udp_datagram(d).unwrap()) {
            assert!(whole.is_none());
            whole = Some((p, l.to_string()));
        }
    }
    assert_eq!(whole, Some((payload, "host.example:53".to_string())));
}

#[test]
fn the_number_of_fragments_is_one_byte() {
    // One byte of payload fits a datagram, so that 258 pieces are counted as 2.
    let mut out = RemoteToLocal::new(3, Some(19), None).unwrap();
    let source = SocketAddr::V4([1, 2, 3, 4], 5);
    let sent = out.forward(&[9; 258], &source).unwrap();
    assert_eq!(sent.len(), 2);
    assert_eq!(sent[1], datagram(3, 0, 1, 2, b"1.2.3.4:5", &[9]));
}

#[test]
fn datagrams_need_support_and_room() {
    assert!(matches!(RemoteToLocal::new(1, None, None), Err(Error::DatagramsUnsupported)));
    let out = RemoteToLocal::new(1, Some(18), None).unwrap();
    assert!(!out.has_room(&SocketAddr::V4([1, 2, 3, 4], 5)));
}

#[test]
fn packet_numbers_wrap_around() {
    let mut out = RemoteToLocal::new(1, Some(100), None).unwrap();
    let source = SocketAddr::V4([1, 2, 3, 4], 5);
    for _ in 0..65536 {
        out.forward(&[], &source).unwrap();
    }
    let sent = out.forward(&[], &source).unwrap();
    assert_eq!(&sent[0][4..6], &[0, 0]);
}

const SECOND: u64 = 1_000_000_000;

#[test]
fn sessions_start_and_deliver() {
    let mut s = UdpSessions::new(0);
    let d = datagram(5, 1, 0, 1, b"host:53", b"q");
    assert!(matches!(s.receive(&[1, 2, 3]), UdpStep::Ignored));
    let dg = match s.receive(&d) {
        UdpStep::ResolveInitial(dg) => dg,
        _ => panic!("a new session was due"),
    };
    assert!(!s.contains(5));
    let resolved = SocketAddr::V4([9, 9, 9, 9], 53);
    // The name stands in for the address that it resolved to.
    let back = s.start(&dg, resolved, 0).unwrap();
    assert_eq!(back.to_string(), "host:53");
    assert!(s.contains(5));
    assert!(matches!(s.deliver(dg), Delivery::Send(p, a) if p == b"q" && a == resolved));
    // Whatever the location, packets go to that address.
    match s.receive(&datagram(5, 2, 0, 1, b"other:1", b"r")) {
        UdpStep::Delivered(5, Delivery::Send(p, a)) => {
            assert_eq!(p, b"r");
            assert_eq!(a, resolved);
        }
        _ => panic!("a packet was due"),
    }
    s.remove(5);
    assert!(!s.contains(5));
}

#[test]
fn sessions_follow_their_location() {
    let mut s = UdpSessions::new(0);
    let first = parse_udp_datagram(&datagram(5, 1, 0, 1, b"1.2.3.4:53", b"q")).unwrap();
    let addr = SocketAddr::V4([1, 2, 3, 4], 53);
    assert!(s.start(&first, addr, 0).is_none());
    assert!(matches!(s.deliver(first), Delivery::Send(_, a) if a == addr));
    let other = parse_udp_datagram(&datagram(5, 2, 0, 1, b"4.3.2.1:53", b"r")).unwrap();
    let location = match s.deliver(other) {
        Delivery::Resolve(p, l) => {
            assert_eq!(p, b"r");
            l
        }
        _ => panic!("a lookup was due"),
    };
    let moved = SocketAddr::V4([4, 3, 2, 1], 53);
    s.relocate(5, location, moved);
    let again = parse_udp_datagram(&datagram(5, 3, 0, 1, b"4.3.2.1:53", b"s")).unwrap();
    assert!(matches!(s.deliver(again), Delivery::Send(_, a) if a == moved));
    let half = parse_udp_datagram(&datagram(5, 4, 0, 2, b"4.3.2.1:53", b"s")).unwrap();
    assert!(matches!(s.deliver(half), Delivery::Ignored));
}

#[test]
fn old_sessions_are_dropped() {
    let mut s = UdpSessions::new(0);
    let addr = SocketAddr::V4([1, 2, 3, 4], 5);
    s.start(&parsed(1, 1, 0, 1, b""), addr, 0);
    s.start(&parsed(2, 1, 0, 1, b""), addr, 55 * SECOND);
    assert!(!s.cleanup(10 * SECOND));
    assert!(s.cleanup(61 * SECOND));
    assert!(!s.contains(1));
    assert!(s.contains(2));
    assert!(!s.cleanup(71 * SECOND));
    assert!(s.cleanup(72 * SECOND));
    assert!(s.contains(2));
}

#[test]
fn hostnames_in_datagrams_stay_names() {
    let d = parse_udp_datagram(&datagram(1, 1, 0, 1, b"h:1", b"")).unwrap();
    assert_eq!(d.remote_location.address(), &Address::Hostname("h".to_string()));
}
