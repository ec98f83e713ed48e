use rust_proxy_server::address::{Address, NetLocation, SocketAddr};
use rust_proxy_server::error::{Error, ErrorKind};
use rust_proxy_server::message_stream::{
    parse_uot_address, write_uot_address, MessageStep, PacketAddrStream, PacketStep, SlideBuffer,
    VlessMessageStream,
};

#[test]
fn slide_buffer_slides() {
    let mut b = SlideBuffer::new(8);
    assert_eq!((b.len(), b.remaining_capacity()), (0, 8));
    b.write_slice()[..6].copy_from_slice(&[1, 2, 3, 4, 5, 6]);
    b.advance_write(6);
    assert_eq!(b.as_slice(), &[1, 2, 3, 4, 5, 6]);
    b.consume(4);
    assert_eq!(b.as_slice(), &[5, 6]);
    assert_eq!(b.remaining_capacity(), 2);
    b.maybe_compact(4);
    assert_eq!(b.remaining_capacity(), 2);
    b.maybe_compact(3);
    assert_eq!(b.remaining_capacity(), 6);
    assert_eq!(b.as_slice(), &[5, 6]);
    b.consume(2);
    assert_eq!((b.len(), b.remaining_capacity()), (0, 8));
}

#[test]
fn uot_addresses_are_parsed() {
    let data = [0, 10, 0, 0, 1, 0x1f, 0x90, 7];
    let (l, n) = parse_uot_address(&data).unwrap().unwrap();
    assert_eq!(l, NetLocation::new(Address::Ipv4([10, 0, 0, 1]), 8080));
    assert_eq!(n, 7);
    let mut v6 = vec![1];
    v6.extend_from_slice(&[9; 16]);
    v6.extend_from_slice(&[0, 53]);
    let (l, n) = parse_uot_address(&v6).unwrap().unwrap();
    assert_eq!(l, NetLocation::new(Address::Ipv6([9; 16]), 53));
    assert_eq!(n, 19);
    let domain = [2, 3, b'a', b'.', b'b', 1, 0];
    let (l, n) = parse_uot_address(&domain).unwrap().unwrap();
    assert_eq!(l, NetLocation::new(Address::Hostname("a.b".to_string()), 256));
    assert_eq!(n, 7);
    // A name stays a name, whatever it looks like.
    let (l, _) = parse_uot_address(&[2, 1, b'1', 0, 1]).unwrap().unwrap();
    assert_eq!(l.address(), &Address::Hostname("1".to_string()));
}

#[test]
fn truncated_uot_addresses_need_more() {
    for data in [&[][..], &[0, 1, 2, 3, 4, 5][..], &[1; 18][..], &[2][..], &[2, 3, 1, 1, 1, 1][..]] {
        assert_eq!(parse_uot_address(data), Ok(None));
    }
}

#[test]
fn bad_uot_addresses_are_refused() {
    assert_eq!(parse_uot_address(&[3, 1]), Err(Error::UnknownAddressType(3)));
    assert_eq!(parse_uot_address(&[2, 1, 0xff, 0, 1]), Err(Error::InvalidDomain));
    assert_eq!(Error::UnknownAddressType(3).kind(), ErrorKind::Other);
    assert_eq!(Error::InvalidDomain.kind(), ErrorKind::Other);
}

#[test]
fn uot_addresses_are_written() {
    let mut buf = [0xaa; 20];
    assert_eq!(write_uot_address(&mut buf, &SocketAddr::V4([1, 2, 3, 4], 0x0506)), 7);
    assert_eq!(&buf[..8], &[0, 1, 2, 3, 4, 5, 6, 0xaa]);
    assert_eq!(write_uot_address(&mut buf, &SocketAddr::V6([7; 16], 0x0809, 0)), 19);
    assert_eq!(buf[0], 1);
    assert_eq!(&buf[1..17], &[7; 16]);
    assert_eq!(&buf[17..], &[8, 9, 0xaa]);
}

fn feed_packets(stream: &mut PacketAddrStream<()>, data: &[u8]) {
    let (_, space) = stream.read_parts();
    space[..data.len()].copy_from_slice(data);
    stream.bytes_read(data.len());
}

#[test]
fn packets_come_out_whole() {
    let mut s = PacketAddrStream::new_uot(());
    assert!(matches!(s.poll_read_targeted_message(), Ok(PacketStep::NeedBytes)));
    feed_packets(&mut s, &[0, 1, 2, 3, 4, 0, 80, 0, 2, 5]);
    assert!(matches!(s.poll_read_targeted_message(), Ok(PacketStep::NeedBytes)));
    feed_packets(&mut s, &[6, 0, 1, 1, 1, 1, 0, 1, 0, 0]);
    match s.poll_read_targeted_message() {
        Ok(PacketStep::Packet(l, payload)) => {
            assert_eq!(l, NetLocation::new(Address::Ipv4([1, 2, 3, 4]), 80));
            assert_eq!(payload, vec![5, 6]);
        }
        _ => panic!("a packet was due"),
    }
    match s.poll_read_targeted_message() {
        Ok(PacketStep::Packet(l, payload)) => {
            assert_eq!(l, NetLocation::new(Address::Ipv4([1, 1, 1, 1]), 1));
            assert!(payload.is_empty());
        }
        _ => panic!("an empty packet was due"),
    }
    s.bytes_read(0);
    match s.poll_read_targeted_message() {
        Ok(PacketStep::Packet(l, payload)) => {
            assert!(l.is_unspecified());
            assert!(payload.is_empty());
        }
        _ => panic!("the end was due"),
    }
    assert!(!s.supports_ping());
}

#[test]
fn bad_packets_are_errors() {
    let mut s = PacketAddrStream::new_uot(());
    feed_packets(&mut s, &[9]);
    assert!(matches!(s.poll_read_targeted_message(), Err(Error::UnknownAddressType(9))));
}

#[test]
fn a_packet_beyond_the_buffer_is_an_error() {
    let mut s = PacketAddrStream::new_uot(());
    let (_, space) = s.read_parts();
    let n = space.len();
    assert_eq!(n, 65535);
    space[..9].copy_from_slice(&[0, 1, 2, 3, 4, 0, 80, 0xff, 0xff]);
    s.bytes_read(n);
    assert!(matches!(s.poll_read_targeted_message(), Err(Error::PacketBufferFull)));
}

#[test]
fn packets_are_framed_and_read_back() {
    let mut s = PacketAddrStream::new_uot(());
    let source = SocketAddr::V4([10, 0, 0, 9], 53);
    s.poll_write_sourced_message(&[1, 2, 3], &source).unwrap();
    let frame = s.write_parts().1.unwrap().to_vec();
    assert_eq!(frame, vec![0, 10, 0, 0, 9, 0, 53, 0, 3, 1, 2, 3]);
    s.wrote(4);
    assert_eq!(s.write_parts().1, Some(&[9u8, 0, 53, 0, 3, 1, 2, 3][..]));
    s.wrote(8);
    assert_eq!(s.write_parts().1, None);
    feed_packets(&mut s, &frame);
    match s.poll_read_targeted_message() {
        Ok(PacketStep::Packet(l, payload)) => {
            assert_eq!(l.to_socket_addr_nonblocking(), Some(source));
            assert_eq!(payload, vec![1, 2, 3]);
        }
        _ => panic!("a packet was due"),
    }
}

#[test]
fn too_large_frames_are_refused() {
    let mut s = PacketAddrStream::new_uot(());
    let v4 = SocketAddr::V4([1, 1, 1, 1], 1);
    let v6 = SocketAddr::V6([1; 16], 1, 0);
    assert_eq!(s.poll_write_sourced_message(&vec![0; 65527], &v4), Err(Error::FrameTooLarge));
    assert_eq!(s.poll_write_sourced_message(&vec![0; 65515], &v6), Err(Error::FrameTooLarge));
    assert_eq!(s.poll_write_sourced_message(&vec![0; 65526], &v4), Ok(()));
    assert_eq!(s.write_parts().1.map(|b| b.len()), Some(65535));
}

fn feed_messages(stream: &mut VlessMessageStream<()>, data: &[u8]) {
    let (_, space) = stream.read_parts();
    space[..data.len()].copy_from_slice(data);
    stream.bytes_read(data.len()).unwrap();
}

#[test]
fn messages_come_out_whole() {
    let mut s = VlessMessageStream::new(());
    feed_messages(&mut s, &[0, 2, 7]);
    assert!(matches!(s.poll_read_message(9), Ok(MessageStep::NeedBytes)));
    feed_messages(&mut s, &[8, 0, 0, 0, 1, 9]);
    match s.poll_read_message(2) {
        Ok(MessageStep::Message(m)) => assert_eq!(m, vec![7, 8]),
        _ => panic!("a message was due"),
    }
    match s.poll_read_message(0) {
        Ok(MessageStep::Message(m)) => assert!(m.is_empty()),
        _ => panic!("an empty message was due"),
    }
    assert!(matches!(s.poll_read_message(0), Err(Error::OutputTooSmall)));
    match s.poll_read_message(1) {
        Ok(MessageStep::Message(m)) => assert_eq!(m, vec![9]),
        _ => panic!("a message was due"),
    }
    assert_eq!(s.bytes_read(0), Ok(()));
    assert!(matches!(s.poll_read_message(1), Ok(MessageStep::End)));
}

#[test]
fn an_end_within_a_message_is_an_error() {
    let mut s = VlessMessageStream::new(());
    feed_messages(&mut s, &[0]);
    assert_eq!(s.bytes_read(0), Err(Error::EofInMessage));
    assert!(matches!(s.poll_read_message(1), Ok(MessageStep::End)));
    assert_eq!(Error::EofInMessage.kind(), ErrorKind::UnexpectedEof);
}

#[test]
fn messages_are_written_and_flushed() {
    let mut s = VlessMessageStream::new(());
    assert!(!s.must_flush());
    s.poll_write_message(&[1, 2, 3]).unwrap();
    assert!(s.must_flush());
    assert_eq!(s.poll_flush_message().1, Some(&[0u8, 3, 1, 2, 3][..]));
    assert_eq!(s.wrote(0), Err(Error::WriteZero));
    assert_eq!(s.wrote(2), Ok(()));
    assert_eq!(s.poll_flush_message().1, Some(&[1u8, 2, 3][..]));
    assert_eq!(s.wrote(3), Ok(()));
    assert_eq!(s.poll_flush_message().1, None);
    assert!(s.must_flush());
    s.flushed();
    assert!(!s.must_flush());
    assert_eq!(s.poll_write_message(&vec![0; 65536]), Err(Error::MessageTooLarge));
    assert_eq!(Error::WriteZero.kind(), ErrorKind::WriteZero);
    assert_eq!(Error::MessageTooLarge.kind(), ErrorKind::InvalidInput);
}

#[test]
fn the_longest_message_fits() {
    let mut s = VlessMessageStream::new(());
    s.poll_write_message(&vec![5; 65535]).unwrap();
    let frame = s.poll_flush_message().1.unwrap().to_vec();
    assert_eq!(frame.len(), 65537);
    feed_messages(&mut s, &frame);
    match s.poll_read_message(65535) {
        Ok(MessageStep::Message(m)) => assert_eq!(m, vec![5; 65535]),
        _ => panic!("a message was due"),
    }
}

#[test]
fn runs_of_packets_read_back_in_order() {
    let mut s = PacketAddrStream::new_uot(());
    let sources = [SocketAddr::V4([1, 1, 1, 1], 1), SocketAddr::V6([2; 16], 2, 0)];
    let mut written = Vec::new();
    for i in 0..6u8 {
        s.poll_write_sourced_message(&vec![i; i as usize], &sources[i as usize % 2]).unwrap();
        let frame = s.write_parts().1.unwrap().to_vec();
        s.wrote(frame.len());
        written.extend(frame);
    }
    feed_packets(&mut s, &written);
    for i in 0..6u8 {
        match s.poll_read_targeted_message() {
            Ok(PacketStep::Packet(l, payload)) => {
                assert_eq!(l.to_socket_addr_nonblocking(), Some(sources[i as usize % 2]));
                assert_eq!(payload, vec![i; i as usize]);
            }
            _ => panic!("a packet was due"),
        }
    }
    assert!(matches!(s.poll_read_targeted_message(), Ok(PacketStep::NeedBytes)));
}

#[test]
fn runs_of_messages_read_back_in_order() {
    let mut s = VlessMessageStream::new(());
    let mut written = Vec::new();
    for i in 0..6u8 {
        s.poll_write_message(&vec![i; i as usize]).unwrap();
        let frame = s.poll_flush_message().1.unwrap().to_vec();
        s.wrote(frame.len()).unwrap();
        s.flushed();
        written.extend(frame);
    }
    feed_messages(&mut s, &written);
    for i in 0..6u8 {
        match s.poll_read_message(9) {
            Ok(MessageStep::Message(m)) => assert_eq!(m, vec![i; i as usize]),
            _ => panic!("a message was due"),
        }
    }
    assert!(matches!(s.poll_read_message(9), Ok(MessageStep::NeedBytes)));
}
