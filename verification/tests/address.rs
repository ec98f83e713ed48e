use rust_proxy_server::address::{Address, NetLocation, SocketAddr};
use rust_proxy_server::error::{Error, ErrorKind};

fn location(text: &str) -> NetLocation {
    NetLocation::from_str(text, None).unwrap()
}

#[test]
fn ipv4_literals_are_addresses() {
    assert_eq!(Address::from("127.0.0.1"), Ok(Address::Ipv4([127, 0, 0, 1])));
    assert_eq!(Address::from("255.255.255.255"), Ok(Address::Ipv4([255, 255, 255, 255])));
}

#[test]
fn near_ipv4_literals_are_hostnames() {
    for text in ["256.1.1.1", "1.2.3", "01.2.3.4", "1.2.3.4.5", "1.2.3.4 ", "1..3.4"] {
        assert_eq!(Address::from(text), Ok(Address::Hostname(text.to_string())), "{}", text);
    }
}

#[test]
fn ipv6_literals_are_addresses() {
    let mut loopback = [0u8; 16];
    loopback[15] = 1;
    assert_eq!(Address::from("::1"), Ok(Address::Ipv6(loopback)));
    assert_eq!(Address::from("::"), Ok(Address::Ipv6([0u8; 16])));
    let mapped = [0, 0, 0, 0, 0, 0, 0, 0, 0, 0, 255, 255, 10, 0, 0, 1];
    assert_eq!(Address::from("::ffff:10.0.0.1"), Ok(Address::Ipv6(mapped)));
    let full = [0x20, 0x01, 0x0d, 0xb8, 0, 1, 0, 2, 0, 3, 0, 4, 0, 5, 0, 6];
    assert_eq!(Address::from("2001:DB8:1:2:3:4:5:6"), Ok(Address::Ipv6(full)));
}

#[test]
fn other_texts_are_hostnames() {
    for text in ["example.com", "localhost", "", "g:1", "1.2.3.4.5:6", "b\u{fc}cher.de"] {
        assert_eq!(Address::from(text), Ok(Address::Hostname(text.to_string())), "{}", text);
    }
    // Texts that only look like IPv6 literals are no exception.
    for text in ["1:2", "::zz", "abc:def", "1.2.3.4:80", ":", "1:2:3:4:5:6:7:8:9"] {
        assert_eq!(Address::from(text), Ok(Address::Hostname(text.to_string())), "{}", text);
    }
    assert_eq!(Address::from("example.com").unwrap().hostname(), Some("example.com"));
    assert_eq!(Address::from("1.2.3.4").unwrap().hostname(), None);
    assert!(Address::from("::1").unwrap().is_ipv6());
    assert!(!Address::from("example.com").unwrap().is_ipv6());
}

#[test]
fn locations_have_a_host_and_a_port() {
    let l = location("example.com:443");
    let (address, port) = l.components();
    assert_eq!(address, &Address::Hostname("example.com".to_string()));
    assert_eq!(port, 443);
    assert_eq!(location("10.0.0.1:80").address(), &Address::Ipv4([10, 0, 0, 1]));
    assert_eq!(location("10.0.0.1:+80").components().1, 80);
    assert_eq!(location("1:2:80").address(), &Address::Hostname("1:2".to_string()));
    assert_eq!(location("1:2:80").components().1, 80);
}

#[test]
fn bracketed_ipv6_locations() {
    let mut loopback = [0u8; 16];
    loopback[15] = 1;
    let l = location("[::1]:8443");
    assert_eq!(l.address(), &Address::Ipv6(loopback));
    assert_eq!(l.components().1, 8443);
    // Without a valid address inside, the brackets belong to a name.
    assert_eq!(location("[x]:1").address(), &Address::Hostname("[x]".to_string()));
}

#[test]
fn bare_ipv6_locations() {
    // The last group is read as the port where it is one.
    assert_eq!(location("::1:80").components().1, 80);
    let l = NetLocation::from_str("fe80::abcd", Some(5)).unwrap();
    assert!(l.address().is_ipv6());
    assert_eq!(l.components().1, 5);
}

#[test]
fn ports_fall_back_on_the_default() {
    assert_eq!(NetLocation::from_str("example.com", Some(9)).unwrap().components().1, 9);
    assert_eq!(NetLocation::from_str("example.com", None), Err(Error::MissingPort));
    assert_eq!(NetLocation::from_str("fe80::abcd", None), Err(Error::MissingPort));
}

#[test]
fn bad_locations_are_refused() {
    assert_eq!(NetLocation::from_str("example.com:http", Some(9)), Err(Error::InvalidLocation));
    assert_eq!(NetLocation::from_str("example.com:65536", None), Err(Error::InvalidLocation));
    assert_eq!(NetLocation::from_str("example.com:", None), Err(Error::InvalidLocation));
    assert_eq!(NetLocation::from_str("ab:x", None), Err(Error::InvalidLocation));
    assert_eq!(NetLocation::from_str("1:2:x", Some(9)), Err(Error::InvalidLocation));
    assert_eq!(Error::InvalidLocation.kind(), ErrorKind::Other);
}

#[test]
fn the_unspecified_location() {
    assert!(NetLocation::unspecified().is_unspecified());
    assert!(NetLocation::from_str("0.0.0.0:0", None).unwrap().is_unspecified());
    assert!(!location("0.0.0.0:1").is_unspecified());
    assert!(!location("[::]:0").is_unspecified());
    assert_eq!(Address::unspecified(), Address::Ipv4([0, 0, 0, 0]));
}

#[test]
fn socket_addresses_of_locations() {
    assert_eq!(
        location("1.2.3.4:5").to_socket_addr_nonblocking(),
        Some(SocketAddr::V4([1, 2, 3, 4], 5))
    );
    assert_eq!(
        location("[::]:5").to_socket_addr_nonblocking(),
        Some(SocketAddr::V6([0; 16], 5, 0))
    );
    assert_eq!(location("a.b:5").to_socket_addr_nonblocking(), None);
}

#[test]
fn texts_of_addresses() {
    assert_eq!(Address::Ipv4([10, 0, 200, 1]).to_string(), "10.0.200.1");
    let ip = [0x20, 0x01, 0x0d, 0xb8, 0, 0, 0, 0, 0, 1, 0, 0, 0, 0, 0, 0x20];
    assert_eq!(Address::Ipv6(ip).to_string(), "2001:db8::1:0:0:20");
    let mapped = [0, 0, 0, 0, 0, 0, 0, 0, 0, 0, 255, 255, 10, 0, 0, 1];
    assert_eq!(Address::Ipv6(mapped).to_string(), "::ffff:10.0.0.1");
    assert_eq!(Address::Hostname("h\u{f6}st".to_string()).to_string(), "h\u{f6}st");
    assert_eq!(location("[::1]:80").to_string(), "::1:80");
    assert_eq!(SocketAddr::V4([1, 2, 3, 4], 65535).to_string(), "1.2.3.4:65535");
    assert_eq!(SocketAddr::V6([0; 16], 7, 0).to_string(), "[::]:7");
    assert_eq!(SocketAddr::V6([0; 16], 7, 2).to_string(), "[::%2]:7");
    assert_eq!(SocketAddr::V6([0; 16], 7, 0).port(), 7);
    assert!(SocketAddr::V4([0; 4], 0).is_ipv4());
}

#[test]
fn ipv6_texts_read_back() {
    let samples: [([u8; 16], &str); 7] = [
        ([0; 16], "::"),
        ([0, 0, 0, 0, 0, 0, 0, 0, 0, 0, 0, 0, 0, 0, 0, 1], "::1"),
        ([0xfe, 0x80, 0, 0, 0, 0, 0, 0, 0, 1, 0, 2, 0, 3, 0, 4], "fe80::1:2:3:4"),
        ([1, 0, 0, 0, 0, 2, 0, 0, 0, 0, 0, 0, 0, 3, 0, 0], "100:0:2::3:0"),
        (
            [0x12, 0x34, 0x56, 0x78, 0x9a, 0xbc, 0xde, 0xf0, 1, 2, 3, 4, 5, 6, 7, 8],
            "1234:5678:9abc:def0:102:304:506:708",
        ),
        ([0, 0, 0, 0, 0, 0, 0, 0, 0, 0, 0xff, 0xff, 1, 2, 3, 4], "::ffff:1.2.3.4"),
        ([0, 1, 0, 0, 0, 2, 0, 3, 0, 4, 0, 5, 0, 6, 0, 7], "1:0:2:3:4:5:6:7"),
    ];
    for (ip, text) in samples {
        assert_eq!(Address::Ipv6(ip).to_string(), text);
        assert_eq!(Address::from(text), Ok(Address::Ipv6(ip)));
    }
}

#[test]
fn locations_read_back() {
    for text in ["example.com:443", "10.1.2.3:1", "x:0"] {
        assert_eq!(location(text).to_string(), text);
        assert_eq!(location(&location(text).to_string()), location(text));
    }
}

#[test]
fn socket_addresses_read_back_as_locations() {
    for addr in [SocketAddr::V4([9, 8, 7, 6], 54), SocketAddr::V6([3; 16], 2, 0)] {
        let l = location(&addr.to_string());
        assert_eq!(l.to_socket_addr_nonblocking(), Some(addr));
    }
}
