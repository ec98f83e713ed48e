//! Network addresses and locations.

use vstd::prelude::*;
use vstd::slice::slice_subrange;
use vstd::std_specs::cmp::PartialEqSpec;
use vstd::string::*;
use vstd::utf8::*;

use crate::error::Error;
use crate::ip;
use crate::text;

verus! {

/// The host of a location: an IP address as its bytes in network order, or a name.
#[derive(Debug, Hash)]
pub enum Address {
    Ipv4([u8; 4]),
    Ipv6([u8; 16]),
    Hostname(String),
}

/// What an [`Address`] stands for.
#[verifier::ext_equal]
pub enum AddressView {
    Ipv4(Seq<u8>),
    Ipv6(Seq<u8>),
    Hostname(Seq<char>),
}

impl View for Address {
    type V = AddressView;

    open spec fn view(&self) -> AddressView {
        match self {
            Address::Ipv4(ip) => AddressView::Ipv4(ip@),
            Address::Ipv6(ip) => AddressView::Ipv6(ip@),
            Address::Hostname(name) => AddressView::Hostname(name@),
        }
    }
}

/// The address that a text names. IP literals come first; anything else is a hostname.
pub open spec fn address_of(s: Seq<u8>) -> AddressView {
    if ip::ipv4_value(s) is Some {
        AddressView::Ipv4(ip::ipv4_value(s)->0)
    } else if ip::ipv6_value(s) is Some {
        AddressView::Ipv6(ip::ipv6_value(s)->0)
    } else {
        AddressView::Hostname(decode_utf8(s))
    }
}

/// How an address is spelled.
pub open spec fn address_text(a: AddressView) -> Seq<u8> {
    match a {
        AddressView::Ipv4(ip) => ip::ipv4_text(ip),
        AddressView::Ipv6(ip) => ip::ipv6_text(ip),
        AddressView::Hostname(name) => encode_utf8(name),
    }
}

impl Address {
    /// The IPv4 address that stands for "any".
    pub fn unspecified() -> (r: Self)
        ensures
            r@ == AddressView::Ipv4(seq![0u8, 0, 0, 0]),
    {
        let ip: [u8; 4] = [0, 0, 0, 0];
        assert(ip@ =~= seq![0u8, 0, 0, 0]);
        Address::Ipv4(ip)
    }

    /// Reads an address. IP literals are detected first; anything else is treated as a
    /// hostname.
    pub fn from(s: &str) -> (r: Result<Self, Error>)
        ensures
            r matches Ok(a) && a@ == address_of(s.spec_bytes()),
    {
        proof {
            encode_utf8_valid_utf8(s@);
        }
        Ok(Self::from_utf8(s.as_bytes()))
    }

    fn from_utf8(bytes: &[u8]) -> (r: Self)
        requires
            valid_utf8(bytes@),
        ensures
            r@ == address_of(bytes@),
    {
        match ip::read_ipv4(bytes) {
            Some(ip) => {
                return Address::Ipv4(ip);
            },
            None => {},
        }
        match ip::read_ipv6(bytes) {
            Some(ip) => {
                return Address::Ipv6(ip);
            },
            None => {},
        }
        let name = text::utf8_string(bytes);
        proof {
            encode_utf8_decode_utf8(name@);
        }
        Address::Hostname(name)
    }

    /// Whether this is an IPv6 address.
    pub fn is_ipv6(&self) -> (r: bool)
        ensures
            r == (self@ is Ipv6),
    {
        match self {
            Address::Ipv6(_) => true,
            _ => false,
        }
    }

    /// The hostname, where this is one.
    pub fn hostname(&self) -> (r: Option<&str>)
        ensures
            match r {
                Some(name) => self@ == AddressView::Hostname(name@),
                None => !(self@ is Hostname),
            },
    {
        match self {
            Address::Hostname(hostname) => Some(hostname.as_str()),
            _ => None,
        }
    }

    fn push_text(&self, out: &mut Vec<u8>)
        requires
            valid_utf8(old(out)@),
        ensures
            final(out)@ == old(out)@ + address_text(self@),
            valid_utf8(final(out)@),
    {
        match self {
            Address::Ipv4(ip) => {
                ip::push_ipv4(out, ip);
                proof {
                    ip::lemma_ipv4_text_ascii(ip@);
                    text::lemma_ascii_is_utf8(ip::ipv4_text(ip@));
                    valid_utf8_concat(old(out)@, ip::ipv4_text(ip@));
                }
            },
            Address::Ipv6(ip) => {
                ip::push_ipv6(out, ip);
                proof {
                    ip::lemma_ipv6_text_ascii(ip@);
                    text::lemma_ascii_is_utf8(ip::ipv6_text(ip@));
                    valid_utf8_concat(old(out)@, ip::ipv6_text(ip@));
                }
            },
            Address::Hostname(name) => {
                let bytes: &[u8] = name.as_str().as_bytes();
                out.extend_from_slice(bytes);
                proof {
                    assert(out@ =~= old(out)@ + bytes@);
                    encode_utf8_valid_utf8(name@);
                    valid_utf8_concat(old(out)@, bytes@);
                }
            },
        }
    }

    /// The text form of the address.
    pub fn to_string(&self) -> (r: String)
        ensures
            encode_utf8(r@) == address_text(self@),
    {
        let mut out: Vec<u8> = Vec::new();
        self.push_text(&mut out);
        assert(out@ =~= address_text(self@));
        text::utf8_string(out.as_slice())
    }
}

impl Clone for Address {
    fn clone(&self) -> (r: Self)
        ensures
            r@ == self@,
    {
        match self {
            Address::Ipv4(ip) => Address::Ipv4(*ip),
            Address::Ipv6(ip) => Address::Ipv6(*ip),
            Address::Hostname(name) => Address::Hostname(name.clone()),
        }
    }
}

impl PartialEq for Address {
    fn eq(&self, other: &Self) -> (r: bool) {
        match (self, other) {
            (Address::Ipv4(a), Address::Ipv4(b)) => text::same_bytes(a.as_slice(), b.as_slice()),
            (Address::Ipv6(a), Address::Ipv6(b)) => text::same_bytes(a.as_slice(), b.as_slice()),
            (Address::Hostname(a), Address::Hostname(b)) => *a == *b,
            _ => false,
        }
    }
}

impl vstd::std_specs::cmp::PartialEqSpecImpl for Address {
    open spec fn obeys_eq_spec() -> bool {
        true
    }

    open spec fn eq_spec(&self, other: &Self) -> bool {
        self@ == other@
    }
}

impl Eq for Address {

}

/// Where a service is reached: a host and a port.
#[derive(Debug, Hash)]
pub struct NetLocation {
    address: Address,
    port: u16,
}

/// What a [`NetLocation`] stands for.
#[verifier::ext_equal]
pub struct NetLocationView {
    pub address: AddressView,
    pub port: u16,
}

impl View for NetLocation {
    type V = NetLocationView;

    closed spec fn view(&self) -> NetLocationView {
        NetLocationView { address: self.address@, port: self.port }
    }
}

/// An IPv6 address in square brackets.
pub open spec fn is_bracketed(s: Seq<u8>) -> bool {
    &&& s.len() >= 2
    &&& s[0] == 91
    &&& s.last() == 93
    &&& ip::ipv6_value(s.subrange(1, s.len() - 1)) is Some
}

/// The address that a text names where a port follows it.
pub open spec fn host_of(s: Seq<u8>) -> AddressView {
    if is_bracketed(s) {
        AddressView::Ipv6(ip::ipv6_value(s.subrange(1, s.len() - 1))->0)
    } else {
        address_of(s)
    }
}

/// The port that a text ends with, after its last colon.
pub open spec fn port_of(s: Seq<u8>) -> Option<nat> {
    let i = text::last_place(s, 58);
    if i >= 0 {
        text::parse_unsigned(s.skip(i + 1), 65535)
    } else {
        None
    }
}

/// The location that a text names. Without a port of its own the text is a whole address,
/// and only an IPv6 address may hold colons.
pub open spec fn location_of(s: Seq<u8>, default_port: Option<u16>) -> Result<NetLocationView, Error> {
    let i = text::last_place(s, 58);
    match port_of(s) {
        Some(port) => Ok(NetLocationView { address: host_of(s.take(i)), port: port as u16 }),
        None => if i >= 0 && !(address_of(s) is Ipv6) {
            Err(Error::InvalidLocation)
        } else {
            match default_port {
                Some(port) => Ok(NetLocationView { address: address_of(s), port }),
                None => Err(Error::MissingPort),
            }
        },
    }
}

/// How a location is spelled.
pub open spec fn location_text(l: NetLocationView) -> Seq<u8> {
    address_text(l.address) + seq![58u8] + text::decimal_text(l.port as nat)
}

/// Whether a text is an IPv6 address in square brackets, and which.
fn read_bracketed(s: &[u8]) -> (r: Option<[u8; 16]>)
    ensures
        match r {
            Some(ip) => is_bracketed(s@) && ip@ == ip::ipv6_value(s@.subrange(1, s@.len() - 1))->0,
            None => !is_bracketed(s@),
        },
{
    let n: usize = s.len();
    if n < 2 || s[0] != 91 || s[n - 1] != 93 {
        return None;
    }
    ip::read_ipv6(slice_subrange(s, 1, n - 1))
}

impl NetLocation {
    /// A location at an address and a port.
    pub fn new(address: Address, port: u16) -> (r: Self)
        ensures
            r@ == (NetLocationView { address: address@, port }),
    {
        Self { address, port }
    }

    /// The location that stands for "none".
    pub fn unspecified() -> (r: Self)
        ensures
            r@ == (NetLocationView { address: AddressView::Ipv4(seq![0u8, 0, 0, 0]), port: 0 }),
    {
        NetLocation::new(Address::unspecified(), 0)
    }

    /// Whether this is the location that stands for "none".
    pub fn is_unspecified(&self) -> (r: bool)
        ensures
            r == (self@ == (NetLocationView {
                address: AddressView::Ipv4(seq![0u8, 0, 0, 0]),
                port: 0,
            })),
    {
        let none = Self::unspecified();
        *self == none
    }

    /// Reads "host:port" or "[ipv6]:port". Where the text has no port, `default_port` stands
    /// in for it.
    pub fn from_str(s: &str, default_port: Option<u16>) -> (r: Result<Self, Error>)
        ensures
            match r {
                Ok(l) => location_of(s.spec_bytes(), default_port) == Ok::<NetLocationView, Error>(l@),
                Err(e) => location_of(s.spec_bytes(), default_port) == Err::<NetLocationView, Error>(e),
            },
    {
        proof {
            encode_utf8_valid_utf8(s@);
            text::lemma_last_place(s.spec_bytes(), 58);
        }
        let bytes: &[u8] = s.as_bytes();
        let n: usize = bytes.len();
        let colon: Option<usize> = text::find_last(bytes, 58);
        match colon {
            Some(i) => {
                let rest: &[u8] = slice_subrange(bytes, i + 1, n);
                assert(rest@ =~= bytes@.skip(i + 1));
                match text::read_unsigned(rest, 65535) {
                    Some(port) => {
                        let front: &[u8] = slice_subrange(bytes, 0, i);
                        assert(front@ =~= bytes@.take(i as int));
                        proof {
                            is_char_boundary_iff_not_is_continuation_byte(bytes@, i as int);
                            valid_utf8_split(bytes@, i as int);
                        }
                        match read_bracketed(front) {
                            Some(ip) => {
                                return Ok(Self { address: Address::Ipv6(ip), port: port as u16 });
                            },
                            None => {},
                        }
                        return Ok(Self { address: Address::from_utf8(front), port: port as u16 });
                    },
                    None => {},
                }
            },
            None => {},
        }
        let address = Address::from_utf8(bytes);
        if colon.is_some() && !address.is_ipv6() {
            return Err(Error::InvalidLocation);
        }
        match default_port {
            Some(port) => Ok(Self { address, port }),
            None => Err(Error::MissingPort),
        }
    }

    /// The address and the port.
    pub fn components(&self) -> (r: (&Address, u16))
        ensures
            r.0@ == self@.address,
            r.1 == self@.port,
    {
        (&self.address, self.port)
    }

    /// The address.
    pub fn address(&self) -> (r: &Address)
        ensures
            r@ == self@.address,
    {
        &self.address
    }

    /// The socket address, where the location needs no lookup.
    pub fn to_socket_addr_nonblocking(&self) -> (r: Option<SocketAddr>)
        ensures
            match self@.address {
                AddressView::Ipv4(ip) => r is Some && r->0@ == (SocketAddrView::V4(ip, self@.port)),
                AddressView::Ipv6(ip) => r is Some && r->0@ == (SocketAddrView::V6(ip, self@.port, 0)),
                AddressView::Hostname(_) => r is None,
            },
    {
        match &self.address {
            Address::Ipv6(ip) => Some(SocketAddr::V6(*ip, self.port, 0)),
            Address::Ipv4(ip) => Some(SocketAddr::V4(*ip, self.port)),
            Address::Hostname(_) => None,
        }
    }

    /// The text form of the location.
    pub fn to_string(&self) -> (r: String)
        ensures
            encode_utf8(r@) == location_text(self@),
    {
        let mut out: Vec<u8> = Vec::new();
        self.address.push_text(&mut out);
        let ghost front = out@;
        out.push(58);
        text::push_decimal(&mut out, self.port as u64);
        proof {
            let tail = seq![58u8] + text::decimal_text(self.port as nat);
            text::lemma_decimal_text(self.port as nat);
            assert forall|i: int| 0 <= i < tail.len() implies #[trigger] tail[i] < 128 by {
                if i > 0 {
                    assert(text::is_digit(text::decimal_text(self.port as nat)[i - 1]));
                }
            }
            text::lemma_ascii_is_utf8(tail);
            valid_utf8_concat(front, tail);
            assert(front =~= address_text(self@.address));
            assert(out@ =~= front + tail);
            assert(out@ =~= location_text(self@));
        }
        text::utf8_string(out.as_slice())
    }
}

impl Clone for NetLocation {
    fn clone(&self) -> (r: Self)
        ensures
            r@ == self@,
    {
        NetLocation { address: self.address.clone(), port: self.port }
    }
}

impl PartialEq for NetLocation {
    fn eq(&self, other: &Self) -> (r: bool) {
        self.port == other.port && self.address == other.address
    }
}

impl vstd::std_specs::cmp::PartialEqSpecImpl for NetLocation {
    open spec fn obeys_eq_spec() -> bool {
        true
    }

    open spec fn eq_spec(&self, other: &Self) -> bool {
        self@ == other@
    }
}

impl Eq for NetLocation {

}

/// An IP address and a port, with the scope of an IPv6 address where it has one.
#[derive(Debug, Clone, Copy, Hash)]
pub enum SocketAddr {
    V4([u8; 4], u16),
    V6([u8; 16], u16, u32),
}

/// What a [`SocketAddr`] stands for.
#[verifier::ext_equal]
pub enum SocketAddrView {
    V4(Seq<u8>, u16),
    V6(Seq<u8>, u16, u32),
}

impl View for SocketAddr {
    type V = SocketAddrView;

    open spec fn view(&self) -> SocketAddrView {
        match self {
            SocketAddr::V4(ip, port) => SocketAddrView::V4(ip@, *port),
            SocketAddr::V6(ip, port, scope) => SocketAddrView::V6(ip@, *port, *scope),
        }
    }
}

/// How an IPv6 address with a scope is spelled; a scope of zero is none.
pub open spec fn scoped_text(ip: Seq<u8>, scope: u32) -> Seq<u8> {
    if scope == 0 {
        ip::ipv6_text(ip)
    } else {
        ip::ipv6_text(ip) + seq![37u8] + text::decimal_text(scope as nat)
    }
}

/// How a socket address is spelled.
pub open spec fn socket_text(a: SocketAddrView) -> Seq<u8> {
    match a {
        SocketAddrView::V4(ip, port) => ip::ipv4_text(ip) + seq![58u8] + text::decimal_text(
            port as nat,
        ),
        SocketAddrView::V6(ip, port, scope) => seq![91u8] + scoped_text(ip, scope) + seq![93u8, 58]
            + text::decimal_text(port as nat),
    }
}

/// Spelled socket addresses are ASCII.
proof fn lemma_socket_text_ascii(a: SocketAddrView)
    requires
        a is V6 ==> a->V6_0.len() == 16,
    ensures
        forall|i: int| 0 <= i < socket_text(a).len() ==> #[trigger] socket_text(a)[i] < 128,
{
    let t = socket_text(a);
    match a {
        SocketAddrView::V4(ip, port) => {
            let d = text::decimal_text(port as nat);
            let n = ip::ipv4_text(ip).len();
            ip::lemma_ipv4_text_ascii(ip);
            text::lemma_decimal_text(port as nat);
            assert forall|i: int| 0 <= i < t.len() implies #[trigger] t[i] < 128 by {
                if i < n {
                    assert(t[i] == ip::ipv4_text(ip)[i]);
                } else if i > n {
                    assert(t[i] == d[i - n - 1]);
                    assert(text::is_digit(d[i - n - 1]));
                }
            }
        },
        SocketAddrView::V6(ip, port, scope) => {
            let d = text::decimal_text(port as nat);
            let h = scoped_text(ip, scope);
            let n = h.len();
            lemma_scoped_text_ascii(ip, scope);
            text::lemma_decimal_text(port as nat);
            assert forall|i: int| 0 <= i < t.len() implies #[trigger] t[i] < 128 by {
                if 1 <= i < n + 1 {
                    assert(t[i] == h[i - 1]);
                } else if i >= n + 3 {
                    assert(t[i] == d[i - n - 3]);
                    assert(text::is_digit(d[i - n - 3]));
                }
            }
        },
    }
}

/// Spelled IPv6 addresses with a scope are ASCII.
proof fn lemma_scoped_text_ascii(ip: Seq<u8>, scope: u32)
    requires
        ip.len() == 16,
    ensures
        forall|i: int| 0 <= i < scoped_text(ip, scope).len() ==> #[trigger] scoped_text(ip, scope)[i] < 128,
{
    let h = scoped_text(ip, scope);
    let n = ip::ipv6_text(ip).len();
    let d = text::decimal_text(scope as nat);
    ip::lemma_ipv6_text_ascii(ip);
    text::lemma_decimal_text(scope as nat);
    assert forall|i: int| 0 <= i < h.len() implies #[trigger] h[i] < 128 by {
        if i < n {
            assert(h[i] == ip::ipv6_text(ip)[i]);
        } else if i > n {
            assert(h[i] == d[i - n - 1]);
            assert(text::is_digit(d[i - n - 1]));
        }
    }
}

impl SocketAddr {
    /// The port.
    pub fn port(&self) -> (r: u16)
        ensures
            r == (match self@ {
                SocketAddrView::V4(_, port) => port,
                SocketAddrView::V6(_, port, _) => port,
            }),
    {
        match self {
            SocketAddr::V4(_, port) => *port,
            SocketAddr::V6(_, port, _) => *port,
        }
    }

    /// Whether this is an IPv4 address.
    pub fn is_ipv4(&self) -> (r: bool)
        ensures
            r == (self@ is V4),
    {
        match self {
            SocketAddr::V4(_, _) => true,
            _ => false,
        }
    }

    /// The text form of the address.
    pub fn to_string(&self) -> (r: String)
        ensures
            encode_utf8(r@) == socket_text(self@),
    {
        let mut out: Vec<u8> = Vec::new();
        match self {
            SocketAddr::V4(ip, port) => {
                ip::push_ipv4(&mut out, ip);
                out.push(58);
                text::push_decimal(&mut out, *port as u64);
            },
            SocketAddr::V6(ip, port, scope) => {
                out.push(91);
                ip::push_ipv6(&mut out, ip);
                if *scope != 0 {
                    out.push(37);
                    text::push_decimal(&mut out, *scope as u64);
                }
                out.push(93);
                out.push(58);
                text::push_decimal(&mut out, *port as u64);
            },
        }
        proof {
            lemma_socket_text_ascii(self@);
            assert(out@ =~= socket_text(self@));
            text::lemma_ascii_is_utf8(out@);
        }
        text::utf8_string(out.as_slice())
    }
}

impl PartialEq for SocketAddr {
    fn eq(&self, other: &Self) -> (r: bool) {
        match (self, other) {
            (SocketAddr::V4(a, p), SocketAddr::V4(b, q)) => *p == *q && text::same_bytes(
                a.as_slice(),
                b.as_slice(),
            ),
            (SocketAddr::V6(a, p, s), SocketAddr::V6(b, q, t)) => *p == *q && *s == *t && text::same_bytes(
                a.as_slice(),
                b.as_slice(),
            ),
            _ => false,
        }
    }
}

impl vstd::std_specs::cmp::PartialEqSpecImpl for SocketAddr {
    open spec fn obeys_eq_spec() -> bool {
        true
    }

    open spec fn eq_spec(&self, other: &Self) -> bool {
        self@ == other@
    }
}

impl Eq for SocketAddr {

}

/// Reading a spelled address gives it back, but for a hostname that spells an IP address.
pub proof fn address_round_trip(a: AddressView)
    requires
        a is Ipv4 ==> a->Ipv4_0.len() == 4,
        a is Ipv6 ==> a->Ipv6_0.len() == 16,
        a matches AddressView::Hostname(name) ==> {
            &&& ip::ipv4_value(encode_utf8(name)) is None
            &&& ip::ipv6_value(encode_utf8(name)) is None
        },
    ensures
        address_of(address_text(a)) == a,
{
    match a {
        AddressView::Ipv4(ip) => {
            ip::ipv4_round_trip(ip);
        },
        AddressView::Ipv6(ip) => {
            ip::ipv6_round_trip(ip);
            ip::ipv4_is_not_ipv6(ip::ipv6_text(ip));
        },
        AddressView::Hostname(name) => {
            encode_utf8_decode_utf8(name);
        },
    }
}

/// Reading a spelled location gives it back, wherever its address is read back and is not
/// spelled in brackets.
pub proof fn location_round_trip(l: NetLocationView, default_port: Option<u16>)
    requires
        address_of(address_text(l.address)) == l.address,
        !is_bracketed(address_text(l.address)),
    ensures
        location_of(location_text(l), default_port) == Ok::<NetLocationView, Error>(l),
{
    let host = address_text(l.address);
    let digits = text::decimal_text(l.port as nat);
    let t = location_text(l);
    text::lemma_decimal_text(l.port as nat);
    assert forall|i: int| host.len() < i < t.len() implies t[i] != 58 by {
        assert(t[i] == digits[i - host.len() - 1]);
        assert(text::is_digit(digits[i - host.len() - 1]));
    }
    text::lemma_last_place_unique(t, 58, host.len() as int);
    assert(t.skip(host.len() as int + 1) =~= digits);
    assert(t.take(host.len() as int) =~= host);
    text::decimal_round_trip(l.port as nat, 65535);
}

/// The location that a socket address is.
pub open spec fn socket_location(a: SocketAddrView) -> NetLocationView {
    match a {
        SocketAddrView::V4(ip, port) => NetLocationView { address: AddressView::Ipv4(ip), port },
        SocketAddrView::V6(ip, port, _) => NetLocationView { address: AddressView::Ipv6(ip), port },
    }
}

/// An IP address has the length of its kind.
pub open spec fn socket_wf(a: SocketAddrView) -> bool {
    match a {
        SocketAddrView::V4(ip, _) => ip.len() == 4,
        SocketAddrView::V6(ip, _, _) => ip.len() == 16,
    }
}

/// A spelled IPv4 address is not in brackets.
proof fn lemma_ipv4_not_bracketed(ip: Seq<u8>)
    requires
        ip.len() == 4,
    ensures
        !is_bracketed(ip::ipv4_text(ip)),
{
    ip::lemma_ipv4_text_bytes(ip);
}

/// Reading a spelled socket address without a scope gives the location that it is.
pub proof fn socket_round_trip(a: SocketAddrView)
    requires
        socket_wf(a),
        a is V6 ==> a->V6_2 == 0,
    ensures
        location_of(socket_text(a), None) == Ok::<NetLocationView, Error>(socket_location(a)),
{
    match a {
        SocketAddrView::V4(ip, port) => {
            lemma_ipv4_not_bracketed(ip);
            address_round_trip(AddressView::Ipv4(ip));
            location_round_trip(socket_location(a), None);
        },
        SocketAddrView::V6(ip, port, _) => {
            let digits = text::decimal_text(port as nat);
            let t = socket_text(a);
            let host = seq![91u8] + ip::ipv6_text(ip) + seq![93u8];
            text::lemma_decimal_text(port as nat);
            assert(t =~= host + seq![58u8] + digits);
            assert forall|i: int| host.len() < i < t.len() implies t[i] != 58 by {
                assert(t[i] == digits[i - host.len() - 1]);
                assert(text::is_digit(digits[i - host.len() - 1]));
            }
            text::lemma_last_place_unique(t, 58, host.len() as int);
            assert(t.skip(host.len() as int + 1) =~= digits);
            assert(t.take(host.len() as int) =~= host);
            text::decimal_round_trip(port as nat, 65535);
            assert(host.subrange(1, host.len() - 1) =~= ip::ipv6_text(ip));
            ip::ipv6_round_trip(ip);
        },
    }
}

/// A text that spells an IP address is that address, and any other text is a name, letter for
/// letter.
pub proof fn texts_are_addresses_or_names(s: Seq<u8>)
    ensures
        ip::ipv4_value(s) matches Some(ip) ==> address_of(s) == AddressView::Ipv4(ip),
        ip::ipv6_value(s) matches Some(ip) ==> address_of(s) == AddressView::Ipv6(ip),
        ip::ipv4_value(s) is None && ip::ipv6_value(s) is None ==> address_of(s)
            == AddressView::Hostname(decode_utf8(s)),
{
    ip::ipv4_is_not_ipv6(s);
}

/// A host with a colon and a port behind it is read as both, whatever the default is. The host may
/// be an IPv6 address in brackets; brackets around anything else belong to a name.
pub proof fn hosts_and_ports_are_read(host: Seq<u8>, port: nat, default_port: Option<u16>)
    ensures
        ({
            let s = host + seq![58u8] + text::decimal_text(port);
            let bracketed = seq![91u8] + host + seq![93u8];
            let t = bracketed + seq![58u8] + text::decimal_text(port);
            &&& port <= 65535 && !(host.len() >= 2 && host[0] == 91 && host.last() == 93
                && ip::ipv6_value(host.subrange(1, host.len() - 1)) is Some) ==> location_of(
                s,
                default_port,
            ) == Ok::<
                NetLocationView,
                Error,
            >(NetLocationView { address: address_of(host), port: port as u16 })
            &&& port <= 65535 ==> match ip::ipv6_value(host) {
                Some(ip) => location_of(t, default_port) == Ok::<NetLocationView, Error>(
                    NetLocationView { address: AddressView::Ipv6(ip), port: port as u16 },
                ),
                None => location_of(t, default_port) == Ok::<NetLocationView, Error>(
                    NetLocationView { address: address_of(bracketed), port: port as u16 },
                ),
            }
            &&& port > 65535 && !(address_of(s) is Ipv6) ==> location_of(s, default_port) == Err::<
                NetLocationView,
                Error,
            >(Error::InvalidLocation)
            &&& port > 65535 && !(address_of(t) is Ipv6) ==> location_of(t, default_port) == Err::<
                NetLocationView,
                Error,
            >(Error::InvalidLocation)
        }),
{
    let bracketed = seq![91u8] + host + seq![93u8];
    lemma_port_behind(host, port);
    lemma_port_behind(bracketed, port);
    assert(bracketed.subrange(1, bracketed.len() - 1) =~= host);
}

/// Where the port stands behind a host.
proof fn lemma_port_behind(host: Seq<u8>, port: nat)
    ensures
        ({
            let s = host + seq![58u8] + text::decimal_text(port);
            &&& text::last_place(s, 58) == host.len()
            &&& s.take(host.len() as int) == host
            &&& port_of(s) == (if port <= 65535 {
                Some(port)
            } else {
                None
            })
        }),
{
    let digits = text::decimal_text(port);
    let s = host + seq![58u8] + digits;
    text::lemma_decimal_text(port);
    assert forall|i: int| host.len() < i < s.len() implies s[i] != 58 by {
        assert(s[i] == digits[i - host.len() - 1]);
        assert(text::is_digit(digits[i - host.len() - 1]));
    }
    text::lemma_last_place_unique(s, 58, host.len() as int);
    assert(s.skip(host.len() as int + 1) =~= digits);
    assert(s.take(host.len() as int) =~= host);
    text::parse_unsigned_reads_decimals(port, 65535);
}

/// The port is the number behind the last colon, however it is spelled, and what stands in front of
/// that colon is the host.
pub proof fn ports_stand_behind_the_last_colon(
    s: Seq<u8>,
    i: int,
    port: nat,
    default_port: Option<u16>,
)
    requires
        0 <= i < s.len(),
        s[i] == 58,
        forall|j: int| i < j < s.len() ==> s[j] != 58,
        text::parse_unsigned(s.skip(i + 1), 65535) == Some(port),
        !(i >= 2 && s[0] == 91 && s[i - 1] == 93),
    ensures
        location_of(s, default_port) == Ok::<NetLocationView, Error>(
            NetLocationView { address: address_of(s.take(i)), port: port as u16 },
        ),
{
    text::lemma_last_place_unique(s, 58, i);
}

/// A text without a port is a whole address, at the default port where there is one. A colon that
/// no port follows is allowed in an IPv6 address only.
pub proof fn ports_may_be_left_out(s: Seq<u8>, default_port: Option<u16>)
    requires
        forall|i: int|
            0 <= i < s.len() && #[trigger] s[i] == 58 && (forall|j: int|
                i < j < s.len() ==> s[j] != 58) ==> text::parse_unsigned(s.skip(i + 1), 65535)
                is None,
    ensures
        ({
            let colons = exists|i: int| 0 <= i < s.len() && #[trigger] s[i] == 58;
            &&& colons && !(address_of(s) is Ipv6) ==> location_of(s, default_port) == Err::<
                NetLocationView,
                Error,
            >(Error::InvalidLocation)
            &&& !colons || address_of(s) is Ipv6 ==> match default_port {
                Some(port) => location_of(s, default_port) == Ok::<NetLocationView, Error>(
                    NetLocationView { address: address_of(s), port },
                ),
                None => location_of(s, default_port) == Err::<NetLocationView, Error>(
                    Error::MissingPort,
                ),
            }
        }),
{
    text::lemma_last_place(s, 58);
    let i = text::last_place(s, 58);
    if i >= 0 {
        assert(s[i] == 58);
        assert(text::parse_unsigned(s.skip(i + 1), 65535) is None);
    }
}

/// How addresses with a port are spelled: an IPv4 address and a name as they are, an IPv6 address
/// in brackets where it is a socket's, with its scope behind a percent sign where it has one; and
/// the port behind a colon.
pub proof fn spellings_end_in_the_port(ip: Seq<u8>, name: Seq<char>, port: u16, scope: u32)
    ensures
        ({
            let digits = text::decimal_text(port as nat);
            &&& location_text(NetLocationView { address: AddressView::Hostname(name), port })
                == encode_utf8(name) + seq![58u8] + digits
            &&& location_text(NetLocationView { address: AddressView::Ipv4(ip), port })
                == ip::ipv4_text(ip) + seq![58u8] + digits
            &&& location_text(NetLocationView { address: AddressView::Ipv6(ip), port })
                == ip::ipv6_text(ip) + seq![58u8] + digits
            &&& socket_text(SocketAddrView::V4(ip, port)) == ip::ipv4_text(ip) + seq![58u8] + digits
            &&& socket_text(SocketAddrView::V6(ip, port, 0)) == seq![91u8] + ip::ipv6_text(ip)
                + seq![93u8, 58] + digits
            &&& scope > 0 ==> socket_text(SocketAddrView::V6(ip, port, scope)) == seq![91u8]
                + ip::ipv6_text(ip) + seq![37u8] + text::decimal_text(scope as nat) + seq![93u8, 58]
                + digits
        }),
{
    let digits = text::decimal_text(port as nat);
    if scope > 0 {
        assert(socket_text(SocketAddrView::V6(ip, port, scope)) =~= seq![91u8] + ip::ipv6_text(ip)
            + seq![37u8] + text::decimal_text(scope as nat) + seq![93u8, 58] + digits);
    }
}

/// A socket address is the location with its address and its port.
pub proof fn socket_addresses_are_locations(ip: Seq<u8>, port: u16, scope: u32)
    ensures
        socket_location(SocketAddrView::V4(ip, port)) == (NetLocationView {
            address: AddressView::Ipv4(ip),
            port,
        }),
        socket_location(SocketAddrView::V6(ip, port, scope)) == (NetLocationView {
            address: AddressView::Ipv6(ip),
            port,
        }),
{
}

/// Addresses are equal where they are of one kind and are spelled of the same bytes or letters;
/// locations where their addresses and their ports are; socket addresses where their addresses,
/// their ports and their scopes are.
pub proof fn equality_is_of_all_parts(
    a: Address,
    b: Address,
    k: NetLocation,
    l: NetLocation,
    s: SocketAddr,
    t: SocketAddr,
)
    ensures
        a.eq_spec(&b) <==> a@ == b@,
        k.eq_spec(&l) <==> k@.address == l@.address && k@.port == l@.port,
        s.eq_spec(&t) <==> s@ == t@,
{
}

} // verus!
