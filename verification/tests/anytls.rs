use std::sync::Arc;

use rust_proxy_server::address::{Address, NetLocation};
use rust_proxy_server::anytls::padding::{
    PaddingFactory, PaddingRule, CHECK_MARK, DEFAULT_PADDING_SCHEME,
};
use rust_proxy_server::anytls::server::{
    configured_padding, AnyTlsServerHandler, Handshake, HandshakeStep,
};
use rust_proxy_server::anytls::session::{
    connect_failed_message, connect_timeout_message, handle_uot_v2, read_location_direct,
    udp_connect_failed_message, AnyTlsSession, LocationStep, StreamEvent, StreamRoute, UotV2Mode,
};
use rust_proxy_server::anytls::stream::{AnyTlsStream, ReadStep, ShutdownStep};
use rust_proxy_server::anytls::types::{Command, Frame, FrameCodec, StringMap};
use rust_proxy_server::anytls::writer::{write_with_padding, FrameWriter, Prepared};
use rust_proxy_server::error::{Error, ErrorKind};
use rust_proxy_server::stream_reader::StreamReader;

// ------------------------------ frames ------------------------------

fn bytes_of(frame: &Frame) -> Vec<u8> {
    let mut out = Vec::new();
    frame.encode_into(&mut out);
    out
}

#[test]
fn frames_are_encoded() {
    assert_eq!(bytes_of(&Frame::control(Command::Fin, 0x01020304)), vec![3, 1, 2, 3, 4, 0, 0]);
    assert_eq!(bytes_of(&Frame::data(5, vec![8, 9])), vec![2, 0, 0, 0, 5, 0, 2, 8, 9]);
    assert_eq!(
        bytes_of(&Frame::with_data(Command::Alert, 0, vec![1])),
        vec![5, 0, 0, 0, 0, 0, 1, 1]
    );
}

#[test]
fn commands_have_codes() {
    for code in 0..=10u8 {
        assert_eq!(Command::from_code(code).map(|c| c.code()), Some(code));
    }
    assert_eq!(Command::from_code(11), None);
    assert_eq!(Command::ServerSettings.code(), 10);
}

#[test]
fn frames_read_back() {
    let mut buffer = bytes_of(&Frame::data(77, vec![1, 2, 3]));
    buffer.extend(bytes_of(&Frame::control(Command::HeartRequest, 9)));
    buffer.push(4);
    let f = FrameCodec::decode(&mut buffer).unwrap().unwrap();
    assert_eq!((f.cmd, f.stream_id, f.data), (Command::Psh, 77, vec![1, 2, 3]));
    let f = FrameCodec::decode(&mut buffer).unwrap().unwrap();
    assert_eq!((f.cmd, f.stream_id), (Command::HeartRequest, 9));
    assert!(f.data.is_empty());
    assert!(FrameCodec::decode(&mut buffer).unwrap().is_none());
    assert_eq!(buffer, vec![4]);
}

#[test]
fn unknown_commands_are_refused() {
    let mut buffer = vec![11, 0, 0, 0, 0, 0, 1];
    assert!(FrameCodec::decode(&mut buffer).unwrap().is_none());
    buffer.push(0);
    assert!(matches!(FrameCodec::decode(&mut buffer), Err(Error::UnknownCommand(11))));
    assert_eq!(Error::UnknownCommand(11).kind(), ErrorKind::InvalidData);
}

#[test]
fn settings_are_lines() {
    let m = StringMap::from_bytes(b"v=2\r\nclient=x=y\nnothing\nv=3\r");
    assert_eq!(m.get(b"v"), Some(&b"3\r"[..]));
    assert_eq!(m.get(b"client"), Some(&b"x=y"[..]));
    assert_eq!(m.get(b"nothing"), None);
    let mut m = StringMap::new();
    m.insert(b"a", b"1");
    m.insert(b"b", b"2");
    m.insert(b"a", b"3");
    assert_eq!(m.to_bytes(), b"a=3\nb=2".to_vec());
    let back = StringMap::from_bytes(&m.to_bytes());
    assert_eq!(back.get(b"a"), Some(&b"3"[..]));
}

// ------------------------------ padding -----------------------------

#[test]
fn the_default_scheme() {
    let f = PaddingFactory::default_factory();
    assert_eq!(f.stop(), 8);
    assert_eq!(f.md5(), "75cff2ad89aadf5e257059ee571ebe11");
    assert_eq!(f.raw_scheme(), DEFAULT_PADDING_SCHEME.as_bytes());
    assert_eq!(f.generate_record_payload_sizes(0), vec![30]);
    assert_eq!(f.generate_record_payload_sizes(8), Vec::<i32>::new());
    let two = f.generate_record_payload_sizes(2);
    assert_eq!(two.len(), 9);
    assert!(two[0] >= 400 && two[0] <= 500);
    for i in 0..4 {
        assert_eq!(two[2 * i + 1], CHECK_MARK);
        assert!(two[2 * i + 2] >= 500 && two[2 * i + 2] <= 1000);
    }
    assert_eq!(PaddingFactory::default().stop(), 8);
}

#[test]
fn schemes_have_to_stop() {
    assert!(matches!(PaddingFactory::new(b"0=1-1"), Err(Error::MissingStop)));
    assert!(matches!(PaddingFactory::new(b"stop=x"), Err(Error::InvalidStop)));
    assert!(matches!(PaddingFactory::new(b"stop=4294967296"), Err(Error::InvalidStop)));
    assert!(matches!(PaddingFactory::new(b"stop= 1"), Err(Error::InvalidStop)));
    let f = PaddingFactory::new(b"stop=2\n0=5-5").unwrap();
    assert_eq!(f.md5(), "139267fea87ed278c6b80b9e7d49ad47");
}

#[test]
fn rules_of_a_scheme() {
    let f = PaddingFactory::new(b"stop=9\n1= 9 - 3 ,c, c ,x,0-5,7,-1,5--6,4-4").unwrap();
    assert_eq!(
        f.record_rules(1),
        vec![
            PaddingRule::Size(3, 9),
            PaddingRule::Check,
            PaddingRule::Check,
            PaddingRule::Size(4, 4),
        ]
    );
    assert!(f.record_rules(2).is_empty());
    let sizes = f.generate_record_payload_sizes(1);
    assert_eq!(sizes.len(), 4);
    assert!(sizes[0] >= 3 && sizes[0] <= 9);
    assert_eq!(&sizes[1..], &[-1, -1, 4]);
}

#[test]
fn sizes_are_drawn() {
    let f = PaddingFactory::new(b"stop=9\n1=1-1000000").unwrap();
    let first = f.generate_record_payload_sizes(1)[0];
    assert!((0..50).any(|_| f.generate_record_payload_sizes(1)[0] != first));
}

#[test]
fn sizes_keep_their_low_bits() {
    assert_eq!(PaddingRule::Check.size(5), -1);
    assert_eq!(PaddingRule::Size(1, 9).size(5), 5);
    assert_eq!(PaddingRule::Size(3, 3).size(5), 3);
    assert_eq!(PaddingRule::Size(4294967297, 4294967297).size(0), 1);
    assert_eq!(PaddingRule::Size(1, 4294967296).size(2147483648), -2147483648);
}

#[test]
fn padding_of_a_configuration() {
    let f = configured_padding(&Some("stop=3".to_string())).unwrap();
    assert_eq!(f.stop(), 3);
    assert_eq!(configured_padding(&None).unwrap().stop(), 8);
    assert!(matches!(configured_padding(&Some(String::new())), Err(Error::MissingStop)));
}

// ------------------------------ writing -----------------------------

#[test]
fn records_are_cut_and_filled() {
    // Cut, fill up, a record of padding alone.
    let writes = write_with_padding(vec![1; 10], &vec![4, 20, 3]);
    assert_eq!(writes[0], vec![1; 4]);
    let mut filled = vec![1; 6];
    filled.extend_from_slice(&[0, 0, 0, 0, 0, 0, 7]);
    filled.extend_from_slice(&[0; 7]);
    assert_eq!(writes[1], filled);
    assert_eq!(writes[1].len(), 20);
    assert_eq!(writes[2], vec![0, 0, 0, 0, 0, 0, 3]);
    assert_eq!(writes[3], vec![0; 3]);
    assert_eq!(writes.len(), 4);
}

#[test]
fn check_marks_stop_where_nothing_is_left() {
    assert_eq!(write_with_padding(vec![1; 5], &vec![5, -1, 9]), vec![vec![1; 5]]);
    let writes = write_with_padding(vec![1; 6], &vec![5, -1, 2]);
    assert_eq!(writes, vec![vec![1; 5], vec![1; 1]]);
    // What no record covers follows in one piece.
    assert_eq!(write_with_padding(vec![1; 9], &vec![4, -1]), vec![vec![1; 4], vec![1; 5]]);
    assert_eq!(write_with_padding(vec![1; 9], &Vec::new()), vec![vec![1; 9]]);
    // Too little room for a frame of padding.
    assert_eq!(write_with_padding(vec![1; 5], &vec![12]), vec![vec![1; 5]]);
}

#[test]
fn zeros_are_written_in_chunks() {
    let writes = write_with_padding(Vec::new(), &vec![2500]);
    let lens: Vec<usize> = writes.iter().map(|w| w.len()).collect();
    assert_eq!(lens, vec![7, 1024, 1024, 452]);
}

#[test]
fn padding_adds_only_waste() {
    let data = bytes_of(&Frame::data(1, vec![9; 100]));
    let mut stream: Vec<u8> = write_with_padding(data, &vec![30, -1, 200, -1, 50]).concat();
    let first = FrameCodec::decode(&mut stream).unwrap().unwrap();
    assert_eq!((first.cmd, first.data), (Command::Psh, vec![9; 100]));
    while let Some(frame) = FrameCodec::decode(&mut stream).unwrap() {
        assert_eq!(frame.cmd, Command::Waste);
    }
    assert!(stream.is_empty());
}

#[test]
fn writers_count_packets() {
    let factory = PaddingFactory::new(b"stop=3\n1=12-12\n2=c").unwrap();
    let mut w = FrameWriter::new(true, false);
    let frame = Frame::control(Command::Fin, 1);
    let plain = bytes_of(&frame);
    // The record of the first packet has no room for a frame of padding.
    assert_eq!(w.write_frame(&frame, &factory), Some(vec![plain.clone()]));
    assert!(matches!(w.prepare(&frame, 3), Prepared::Padded(_, 2)));
    assert!(matches!(w.prepare(&frame, 3), Prepared::Plain(_)));
    assert_eq!(w.write_frame(&frame, &factory), Some(vec![plain]));
}

#[test]
fn writers_pad_by_the_scheme() {
    let factory = PaddingFactory::new(b"stop=3\n1=20-20").unwrap();
    let mut w = FrameWriter::new(true, false);
    let frame = Frame::control(Command::Fin, 1);
    let mut wanted = bytes_of(&frame);
    wanted.extend_from_slice(&[0, 0, 0, 0, 0, 0, 6]);
    wanted.extend_from_slice(&[0; 6]);
    assert_eq!(w.write_frame(&frame, &factory), Some(vec![wanted.clone()]));
    // Of a number beyond 32 bits the low ones are the size.
    let factory = PaddingFactory::new(b"stop=3\n1=4294967316-4294967316").unwrap();
    let mut w = FrameWriter::new(true, false);
    assert_eq!(w.write_frame(&frame, &factory), Some(vec![wanted]));
}

#[test]
fn writers_keep_frames_back() {
    let factory = PaddingFactory::default();
    let mut w = FrameWriter::new(false, true);
    assert_eq!(w.write_frame(&Frame::control(Command::Fin, 1), &factory), None);
    assert!(matches!(w.prepare(&Frame::control(Command::Fin, 2), 8), Prepared::Held));
}

// ------------------------------ session -----------------------------

fn session() -> AnyTlsSession {
    AnyTlsSession::new_server_with_initial_data(
        PaddingFactory::default_factory(),
        true,
        "user1".to_string(),
        None,
    )
}

fn settings(text: &str) -> Frame {
    Frame::with_data(Command::Settings, 0, text.as_bytes().to_vec())
}

#[test]
fn streams_need_settings_first() {
    let mut s = session();
    let h = s.handle_frame(Frame::control(Command::Syn, 1));
    assert_eq!(h.result, Err(Error::MissingClientSettings));
    assert_eq!(h.frames.len(), 1);
    assert_eq!(h.frames[0].cmd, Command::Alert);
    assert_eq!(h.frames[0].data, b"client did not send its settings".to_vec());
    assert!(matches!(h.event, StreamEvent::Nothing));
    assert_eq!(Error::MissingClientSettings.kind(), ErrorKind::InvalidData);
}

#[test]
fn streams_live_from_syn_to_fin() {
    let mut s = session();
    assert_eq!(s.user_name(), "user1");
    s.handle_frame(settings("v=1"));
    assert!(matches!(
        s.handle_frame(Frame::data(3, vec![1])).event,
        StreamEvent::Nothing
    ));
    assert!(matches!(
        s.handle_frame(Frame::control(Command::Syn, 3)).event,
        StreamEvent::Open(3)
    ));
    assert!(matches!(
        s.handle_frame(Frame::control(Command::Syn, 3)).event,
        StreamEvent::Nothing
    ));
    assert!(matches!(
        s.handle_frame(Frame::data(3, vec![7, 8])).event,
        StreamEvent::Data(3, d) if d == vec![7, 8]
    ));
    assert!(matches!(
        s.handle_frame(Frame::data(3, vec![])).event,
        StreamEvent::Nothing
    ));
    assert!(matches!(
        s.handle_frame(Frame::control(Command::Fin, 3)).event,
        StreamEvent::End(3)
    ));
    assert!(matches!(
        s.handle_frame(Frame::control(Command::Fin, 3)).event,
        StreamEvent::Nothing
    ));
}

#[test]
fn settings_are_answered() {
    let mut s = session();
    let same = format!("v=2\npadding-md5={}", PaddingFactory::default().md5());
    let h = s.handle_frame(settings(&same));
    assert_eq!(h.frames.len(), 1);
    assert_eq!(h.frames[0].cmd, Command::ServerSettings);
    assert_eq!(h.frames[0].data, b"v=2".to_vec());
    assert_eq!(s.peer_version(), 2);
    let h = s.handle_frame(settings("v=1\npadding-md5=other"));
    assert_eq!(h.frames.len(), 1);
    assert_eq!(h.frames[0].cmd, Command::UpdatePaddingScheme);
    assert_eq!(h.frames[0].data, DEFAULT_PADDING_SCHEME.as_bytes().to_vec());
    assert_eq!(s.peer_version(), 2);
    let h = s.handle_frame(settings("v=7\npadding-md5=x"));
    assert_eq!(h.frames.len(), 2);
    assert_eq!(s.peer_version(), 7);
    assert!(s.handle_frame(settings("v=256")).frames.is_empty());
}

#[test]
fn heartbeats_and_alerts() {
    let mut s = session();
    let h = s.handle_frame(Frame::control(Command::HeartRequest, 12));
    assert_eq!(h.frames[0].cmd, Command::HeartResponse);
    assert_eq!(h.frames[0].stream_id, 12);
    let h = s.handle_frame(Frame::with_data(Command::Alert, 0, b"no".to_vec()));
    assert_eq!(h.result, Err(Error::AlertReceived));
    assert!(matches!(h.event, StreamEvent::Alert(m) if m == b"no"));
    for cmd in [
        Command::Waste,
        Command::SynAck,
        Command::ServerSettings,
        Command::UpdatePaddingScheme,
        Command::HeartResponse,
    ] {
        let h = s.handle_frame(Frame::with_data(cmd, 1, vec![1]));
        assert!(h.frames.is_empty() && h.result.is_ok());
        assert!(matches!(h.event, StreamEvent::Nothing));
    }
}

#[test]
fn input_is_cut_into_frames() {
    let mut s = AnyTlsSession::new_server_with_initial_data(
        PaddingFactory::default_factory(),
        true,
        String::new(),
        Some(vec![8, 0, 0]),
    );
    assert!(s.next_frame().unwrap().is_none());
    s.receive(&[0, 9, 0, 0, 2]);
    let f = s.next_frame().unwrap().unwrap();
    assert_eq!((f.cmd, f.stream_id), (Command::HeartRequest, 9));
    assert!(s.next_frame().unwrap().is_none());
}

#[test]
fn output_is_framed() {
    let mut s = session();
    let f = s.outgoing_frame(4, vec![1]).unwrap();
    assert_eq!((f.cmd, f.stream_id), (Command::Psh, 4));
    assert_eq!(s.write_frame(&f), vec![vec![2, 0, 0, 0, 4, 0, 1, 1]]);
    let f = s.outgoing_frame(4, vec![]).unwrap();
    assert_eq!(f.cmd, Command::Fin);
    s.handle_frame(settings(""));
    s.handle_frame(Frame::control(Command::Syn, 4));
    s.finish_stream(4);
    assert!(matches!(
        s.handle_frame(Frame::control(Command::Syn, 4)).event,
        StreamEvent::Open(4)
    ));
    assert!(s.close());
    assert!(!s.close());
    assert!(s.is_closed());
    assert!(s.outgoing_frame(4, vec![1]).is_none());
    assert!(matches!(s.handle_frame(Frame::data(4, vec![1])).event, StreamEvent::Nothing));
}

#[test]
fn synacks_need_version_two() {
    let mut s = session();
    assert!(s.send_synack(1, None).is_none());
    s.handle_frame(settings("v=2"));
    let f = s.send_synack(1, None).unwrap();
    assert_eq!((f.cmd, f.stream_id, f.data), (Command::SynAck, 1, vec![]));
    let f = s.send_synack(2, Some("no route")).unwrap();
    assert_eq!(f.data, b"no route".to_vec());
}

#[test]
fn messages_to_clients() {
    assert_eq!(connect_failed_message("refused"), "connect failed: refused");
    assert_eq!(udp_connect_failed_message("x"), "UDP connect failed: x");
    let l = NetLocation::from_str("a.b:1", None).unwrap();
    assert_eq!(connect_timeout_message(&l), "connect to a.b:1 timed out after 30s");
}

#[test]
fn destinations_are_routed() {
    let s = session();
    let at = |host: &str| NetLocation::new(Address::Hostname(host.to_string()), 443);
    assert_eq!(s.handle_new_stream(&at("example.com")), Ok(StreamRoute::TcpForward));
    assert_eq!(s.handle_new_stream(&at("sp.udp-over-tcp.arpa")), Ok(StreamRoute::UotV1));
    assert_eq!(s.handle_new_stream(&at("sp.v2.udp-over-tcp.arpa")), Ok(StreamRoute::UotV2));
    let off = AnyTlsSession::new_server_with_initial_data(
        PaddingFactory::default_factory(),
        false,
        String::new(),
        None,
    );
    assert_eq!(off.handle_new_stream(&at("example.com")), Ok(StreamRoute::TcpForward));
    assert_eq!(
        off.handle_new_stream(&at("sp.udp-over-tcp.arpa")),
        Err(Error::UdpDisabled)
    );
    assert_eq!(
        off.handle_new_stream(&at("sp.v2.udp-over-tcp.arpa")),
        Err(Error::UdpDisabled)
    );
    assert_eq!(Error::UdpDisabled.kind(), ErrorKind::Unsupported);
    assert_eq!(handle_uot_v2(1), UotV2Mode::Connect);
    assert_eq!(handle_uot_v2(0), UotV2Mode::MultiDestination);
}

fn read_destination(data: &[u8]) -> Result<(NetLocation, usize), Error> {
    let mut have = 0;
    loop {
        match read_location_direct(&data[..have])? {
            LocationStep::Need(n) => have += n,
            LocationStep::Done(l) => return Ok((l, have)),
        }
    }
}

#[test]
fn destinations_are_read_to_their_end() {
    let (l, n) = read_destination(&[1, 10, 0, 0, 1, 1, 187, 99, 99]).unwrap();
    assert_eq!((l.to_string().as_str(), n), ("10.0.0.1:443", 7));
    let mut v6 = vec![4];
    v6.extend_from_slice(&[0; 16]);
    v6.extend_from_slice(&[0, 80, 99]);
    let (l, n) = read_destination(&v6).unwrap();
    assert!(l.address().is_ipv6());
    assert_eq!(n, 19);
    let (l, n) = read_destination(&[3, 3, b'a', b'.', b'b', 0, 7, 99]).unwrap();
    assert_eq!((l.to_string().as_str(), n), ("a.b:7", 7));
    let (l, _) = read_destination(&[3, 2, b':', b'x', 0, 1]).unwrap();
    assert_eq!(l.address(), &Address::Hostname(":x".to_string()));
    // A name that is an IP literal is an address.
    let (l, _) = read_destination(&[3, 7, b'1', b'.', b'1', b'.', b'1', b'.', b'1', 0, 7]).unwrap();
    assert_eq!(l.address(), &Address::Ipv4([1, 1, 1, 1]));
}

#[test]
fn bad_destinations_are_refused() {
    assert!(matches!(read_location_direct(&[2]), Err(Error::UnknownDestinationType(2))));
    assert!(matches!(
        read_location_direct(&[3, 1, 0xff, 0, 1]),
        Err(Error::InvalidDestinationEncoding)
    ));
    assert_eq!(Error::UnknownDestinationType(2).kind(), ErrorKind::InvalidInput);
    assert_eq!(Error::InvalidDestinationEncoding.kind(), ErrorKind::InvalidData);
}

// ------------------------------- stream -----------------------------

#[test]
fn streams_hand_out_what_they_get() {
    let mut s = AnyTlsStream::new(6);
    assert_eq!(s.id(), 6);
    assert!(matches!(s.poll_read(2), Ok(ReadStep::NeedPiece)));
    assert_eq!(s.piece_received(Some(vec![1, 2, 3, 4, 5]), 2), vec![1, 2]);
    assert!(matches!(s.poll_read(2), Ok(ReadStep::Data(d)) if d == vec![3, 4]));
    assert!(matches!(s.poll_read(2), Ok(ReadStep::Data(d)) if d == vec![5]));
    assert!(matches!(s.poll_read(2), Ok(ReadStep::NeedPiece)));
    assert!(s.piece_received(Some(vec![]), 2).is_empty());
    assert!(matches!(s.poll_read(2), Ok(ReadStep::Data(d)) if d.is_empty()));
    let mut gone = AnyTlsStream::new(7);
    assert!(gone.piece_received(None, 2).is_empty());
    assert!(matches!(gone.poll_read(2), Ok(ReadStep::Data(d)) if d.is_empty()));
}

#[test]
fn streams_write_frames_at_most() {
    let s = AnyTlsStream::new(6);
    assert_eq!(s.poll_write(10, false), Ok(10));
    assert_eq!(s.poll_write(70000, false), Ok(65535));
    assert_eq!(s.poll_write(10, true), Err(Error::SessionClosed));
    assert_eq!(Error::SessionClosed.kind(), ErrorKind::BrokenPipe);
}

#[test]
fn streams_shut_down_once() {
    let mut s = AnyTlsStream::new(6);
    assert_eq!(s.poll_shutdown(false), ShutdownStep::SendFin);
    assert_eq!(s.poll_write(1, false), Err(Error::StreamShuttingDown));
    assert_eq!(s.fin_sent(true), Ok(()));
    assert_eq!(s.poll_shutdown(false), ShutdownStep::Done);
    assert_eq!(s.poll_write(1, false), Err(Error::StreamClosed));
    assert!(matches!(s.poll_read(1), Err(Error::StreamClosed)));
    assert!(!s.abandon());
    let mut t = AnyTlsStream::new(7);
    assert_eq!(t.poll_shutdown(true), ShutdownStep::Done);
    assert!(!t.abandon());
    let mut u = AnyTlsStream::new(8);
    assert_eq!(u.fin_sent(false), Err(Error::ChannelClosed));
    let mut v = AnyTlsStream::new(9);
    assert!(v.abandon());
    assert_eq!(Error::ChannelClosed.kind(), ErrorKind::BrokenPipe);
}

// ------------------------------ greeting ----------------------------

const SECRET123: [u8; 32] = [
    0xfc, 0xf7, 0x30, 0xb6, 0xd9, 0x52, 0x36, 0xec, 0xd3, 0xc9, 0xfc, 0x2d, 0x92, 0xd7, 0xb6, 0xb2,
    0xbb, 0x06, 0x15, 0x14, 0x96, 0x1a, 0xec, 0x04, 0x1d, 0x6c, 0x7a, 0x71, 0x92, 0xf5, 0x92, 0xe4,
];

fn handler(fallback: Option<&str>) -> AnyTlsServerHandler {
    AnyTlsServerHandler::new(
        vec![
            ("user1".to_string(), "secret123".to_string()),
            ("user2".to_string(), "other".to_string()),
        ],
        Arc::new(PaddingFactory::default()),
        true,
        fallback.map(|f| NetLocation::from_str(f, None).unwrap()),
    )
}

fn give(reader: &mut StreamReader, data: &[u8]) {
    reader.spare().unwrap()[..data.len()].copy_from_slice(data);
    reader.filled(data.len()).unwrap();
}

#[test]
fn known_users_are_let_in_byte_by_byte() {
    let h = handler(None);
    let mut greeting = SECRET123.to_vec();
    greeting.extend_from_slice(&[1, 0]);
    greeting.extend_from_slice(&[0; 256]);
    let mut reader = StreamReader::new();
    let mut shake = Handshake::new(&h, &reader);
    let n = greeting.len();
    for (i, b) in greeting.iter().enumerate() {
        give(&mut reader, &[*b]);
        match shake.handle_connection(&h, &mut reader) {
            Ok(HandshakeStep::NeedBytes) => assert!(i + 1 < n),
            Ok(HandshakeStep::Accepted(name, initial)) => {
                assert_eq!(i + 1, n);
                assert_eq!(name, "user1");
                assert_eq!(initial, None);
            }
            _ => panic!("the user is known"),
        }
    }
    assert!(h.udp_enabled());
    assert_eq!(h.padding().stop(), 8);
}

#[test]
fn early_data_belongs_to_the_session() {
    let h = handler(None);
    let mut data = SECRET123.to_vec();
    data.extend_from_slice(&[0, 0, 4, 5, 6]);
    let mut reader = StreamReader::new();
    give(&mut reader, &data);
    let mut shake = Handshake::new(&h, &reader);
    match shake.handle_connection(&h, &mut reader) {
        Ok(HandshakeStep::Accepted(name, initial)) => {
            assert_eq!(name, "user1");
            assert_eq!(initial, Some(vec![4, 5, 6]));
        }
        _ => panic!("the user is known"),
    }
}

#[test]
fn unknown_users_are_refused() {
    let h = handler(None);
    let mut reader = StreamReader::new();
    give(&mut reader, b"GET / HT");
    let mut shake = Handshake::new(&h, &reader);
    assert!(matches!(
        shake.handle_connection(&h, &mut reader),
        Err(Error::PrefixMismatch)
    ));
    let mut reader = StreamReader::new();
    let mut wrong = SECRET123;
    wrong[31] ^= 1;
    give(&mut reader, &wrong);
    let mut shake = Handshake::new(&h, &reader);
    assert!(matches!(
        shake.handle_connection(&h, &mut reader),
        Err(Error::AuthenticationFailed)
    ));
    assert_eq!(Error::PrefixMismatch.kind(), ErrorKind::PermissionDenied);
    assert_eq!(Error::AuthenticationFailed.kind(), ErrorKind::PermissionDenied);
}

#[test]
fn unknown_users_are_forwarded_with_all_they_sent() {
    let h = handler(Some("127.0.0.1:80"));
    let mut reader = StreamReader::new();
    give(&mut reader, b"GET / HTTP/1.1\r\n");
    let mut shake = Handshake::new(&h, &reader);
    match shake.handle_connection(&h, &mut reader) {
        Ok(HandshakeStep::Fallback(l)) => assert_eq!(l.to_string(), "127.0.0.1:80"),
        _ => panic!("a fallback is configured"),
    }
    assert_eq!(reader.unparsed_data(), b"GET / HTTP/1.1\r\n");
    let mut wrong = SECRET123;
    wrong[31] ^= 1;
    let mut reader = StreamReader::new();
    give(&mut reader, &wrong);
    let mut shake = Handshake::new(&h, &reader);
    assert!(matches!(
        shake.handle_connection(&h, &mut reader),
        Ok(HandshakeStep::Fallback(_))
    ));
    assert_eq!(reader.unparsed_data(), &wrong);
}

#[test]
fn too_much_padding_is_an_error() {
    let h = handler(None);
    let mut data = SECRET123.to_vec();
    data.extend_from_slice(&[0x80, 1]);
    let mut reader = StreamReader::new();
    give(&mut reader, &data);
    let mut shake = Handshake::new(&h, &reader);
    assert!(matches!(
        shake.handle_connection(&h, &mut reader),
        Err(Error::ExceedsBuffer)
    ));
    // The longest padding that fits the buffer is read.
    let mut data = SECRET123.to_vec();
    data.extend_from_slice(&[0x80, 0]);
    let mut reader = StreamReader::new();
    give(&mut reader, &data);
    let mut shake = Handshake::new(&h, &reader);
    assert!(matches!(
        shake.handle_connection(&h, &mut reader),
        Ok(HandshakeStep::NeedBytes)
    ));
    give(&mut reader, &[0; 32768]);
    assert!(matches!(
        shake.handle_connection(&h, &mut reader),
        Ok(HandshakeStep::Accepted(_, None))
    ));
}

#[test]
fn of_equal_passwords_the_last_name_counts() {
    let h = AnyTlsServerHandler::new(
        vec![
            ("a".to_string(), "secret123".to_string()),
            ("b".to_string(), "secret123".to_string()),
        ],
        Arc::new(PaddingFactory::default()),
        false,
        None,
    );
    let mut data = SECRET123.to_vec();
    data.extend_from_slice(&[0, 0]);
    let mut reader = StreamReader::new();
    give(&mut reader, &data);
    let mut shake = Handshake::new(&h, &reader);
    assert!(matches!(
        shake.handle_connection(&h, &mut reader),
        Ok(HandshakeStep::Accepted(n, None)) if n == "b"
    ));
}
