//! Message-oriented stream wrappers used by the AnyTLS UDP-over-TCP (UoT) support.
//!
//! Each wrapper holds the stream that it speaks through and the bytes on their way in and
//! out. It decides what the bytes mean; moving them between the wrapper and its stream is
//! left to the caller, who asks what to do next and reports what came of it.

use vstd::prelude::*;
use vstd::slice::slice_subrange;
use vstd::utf8::*;

use crate::address;
use crate::address::{Address, AddressView, NetLocation, NetLocationView, SocketAddr, SocketAddrView};
use crate::error::Error;
use crate::text;
use crate::util;

verus! {

// ============================ SlideBuffer ============================

/// A fixed-capacity sliding buffer with zero-allocation read/write operations.
pub struct SlideBuffer {
    data: Vec<u8>,
    start: usize,
    end: usize,
}

impl SlideBuffer {
    /// The bounds lie in order within the buffer, and at its front where it is empty.
    pub closed spec fn wf(self) -> bool {
        &&& self.start <= self.end <= self.data@.len()
        &&& self.start == self.end ==> self.end == 0
    }

    /// The bytes in the buffer.
    pub closed spec fn held(self) -> Seq<u8> {
        self.data@.subrange(self.start as int, self.end as int)
    }

    /// How many bytes in front of the held ones are used up.
    pub closed spec fn used(self) -> nat {
        self.start as nat
    }

    /// The free bytes behind the held ones.
    pub closed spec fn room(self) -> Seq<u8> {
        self.data@.skip(self.end as int)
    }

    /// How many bytes the buffer takes in all.
    pub open spec fn capacity(self) -> nat {
        self.used() + self.held().len() + self.room().len()
    }

    /// An empty buffer of `capacity` bytes.
    pub fn new(capacity: usize) -> (r: Self)
        ensures
            r.wf(),
            r.held() == Seq::<u8>::empty(),
            r.used() == 0,
            r.capacity() == capacity,
    {
        let r = Self { data: util::allocate_vec(capacity), start: 0, end: 0 };
        assert(r.held() =~= Seq::<u8>::empty());
        r
    }

    /// How many bytes the buffer holds.
    pub fn len(&self) -> (r: usize)
        requires
            self.wf(),
        ensures
            r == self.held().len(),
    {
        self.end - self.start
    }

    /// How many bytes fit behind the held ones.
    pub fn remaining_capacity(&self) -> (r: usize)
        requires
            self.wf(),
        ensures
            r == self.room().len(),
    {
        self.data.len() - self.end
    }

    /// The bytes in the buffer.
    pub fn as_slice(&self) -> (r: &[u8])
        requires
            self.wf(),
        ensures
            r@ == self.held(),
    {
        slice_subrange(self.data.as_slice(), self.start, self.end)
    }

    /// The free bytes, to write into.
    pub fn write_slice(&mut self) -> (r: &mut [u8])
        requires
            old(self).wf(),
        ensures
            r@ == old(self).room(),
            final(r)@.len() == r@.len() ==> {
                &&& final(self).wf()
                &&& final(self).held() == old(self).held()
                &&& final(self).used() == old(self).used()
                &&& final(self).room() == final(r)@
            },
    {
        let (front, back) = self.data.as_mut_slice().split_at_mut(self.end);
        back
    }

    /// Takes in the first `n` of the free bytes.
    pub fn advance_write(&mut self, n: usize)
        requires
            old(self).wf(),
            n <= old(self).room().len(),
        ensures
            final(self).wf(),
            final(self).held() == old(self).held() + old(self).room().take(n as int),
            final(self).used() == old(self).used(),
            final(self).room() == old(self).room().skip(n as int),
    {
        assert(self.data.len() == self.data@.len());
        self.end = self.end + n;
        assert(self.held() =~= old(self).held() + old(self).room().take(n as int));
        assert(self.room() =~= old(self).room().skip(n as int));
    }

    /// Uses up the first `n` held bytes. An empty buffer starts over at its front.
    pub fn consume(&mut self, n: usize)
        requires
            old(self).wf(),
            n <= old(self).held().len(),
        ensures
            final(self).wf(),
            final(self).held() == old(self).held().skip(n as int),
            final(self).capacity() == old(self).capacity(),
            final(self).used() == (if n == old(self).held().len() {
                0
            } else {
                old(self).used() + n
            }),
    {
        self.start = self.start + n;
        if self.start >= self.end {
            self.start = 0;
            self.end = 0;
        }
        assert(self.held() =~= old(self).held().skip(n as int));
    }

    /// Moves the held bytes to the front once more than `threshold` bytes before them are
    /// used up.
    pub fn maybe_compact(&mut self, threshold: usize)
        requires
            old(self).wf(),
        ensures
            final(self).wf(),
            final(self).held() == old(self).held(),
            final(self).capacity() == old(self).capacity(),
            final(self).used() == (if old(self).used() > threshold {
                0
            } else {
                old(self).used()
            }),
    {
        if self.start > threshold {
            if self.start < self.end {
                util::move_to_front(&mut self.data, self.start, self.end);
                self.end = self.end - self.start;
            } else {
                self.end = 0;
            }
            self.start = 0;
            assert(self.held() =~= old(self).held());
        }
    }
}

/// An empty buffer has room for all that it takes.
pub proof fn empty_buffer_has_all_room(b: SlideBuffer)
    requires
        b.wf(),
        b.held().len() == 0,
    ensures
        b.used() == 0,
        b.room().len() == b.capacity(),
{
}

// ===================== UoT / SOCKS address codecs =====================

/// UoT AddrParser ATYP values (used in V1 / V2 non-connect packets).
pub const UOT_ATYP_IPV4: u8 = 0x00;

pub const UOT_ATYP_IPV6: u8 = 0x01;

pub const UOT_ATYP_DOMAIN: u8 = 0x02;

/// The address (ATYP + address + port) at the start of some bytes, with its length: `None`
/// where the bytes end within it.
pub open spec fn uot_address(d: Seq<u8>) -> Result<Option<(NetLocationView, int)>, Error> {
    if d.len() == 0 {
        Ok(None)
    } else if d[0] == UOT_ATYP_IPV4 {
        if d.len() < 7 {
            Ok(None)
        } else {
            Ok(
                Some(
                    (
                        NetLocationView {
                            address: AddressView::Ipv4(d.subrange(1, 5)),
                            port: util::be16(d[5], d[6]),
                        },
                        7,
                    ),
                ),
            )
        }
    } else if d[0] == UOT_ATYP_IPV6 {
        if d.len() < 19 {
            Ok(None)
        } else {
            Ok(
                Some(
                    (
                        NetLocationView {
                            address: AddressView::Ipv6(d.subrange(1, 17)),
                            port: util::be16(d[17], d[18]),
                        },
                        19,
                    ),
                ),
            )
        }
    } else if d[0] == UOT_ATYP_DOMAIN {
        if d.len() < 2 || d.len() < 4 + d[1] {
            Ok(None)
        } else if valid_utf8(d.subrange(2, 2 + d[1])) {
            Ok(
                Some(
                    (
                        NetLocationView {
                            address: AddressView::Hostname(decode_utf8(d.subrange(2, 2 + d[1]))),
                            port: util::be16(d[2 + d[1]], d[3 + d[1]]),
                        },
                        4 + d[1],
                    ),
                ),
            )
        } else {
            Err(Error::InvalidDomain)
        }
    } else {
        Err(Error::UnknownAddressType(d[0]))
    }
}

/// The bytes (ATYP + address + port) of a socket address.
pub open spec fn uot_address_bytes(a: SocketAddrView) -> Seq<u8> {
    match a {
        SocketAddrView::V4(ip, port) => seq![UOT_ATYP_IPV4] + ip + util::be16_bytes(port),
        SocketAddrView::V6(ip, port, _) => seq![UOT_ATYP_IPV6] + ip + util::be16_bytes(port),
    }
}

/// Copies four bytes.
pub(crate) fn four_at(data: &[u8], at: usize) -> (r: [u8; 4])
    requires
        at + 4 <= data@.len(),
    ensures
        r@ == data@.subrange(at as int, at + 4),
{
    let r: [u8; 4] = [data[at], data[at + 1], data[at + 2], data[at + 3]];
    assert(r@ =~= data@.subrange(at as int, at + 4));
    r
}

/// Copies sixteen bytes.
pub(crate) fn sixteen_at(data: &[u8], at: usize) -> (r: [u8; 16])
    requires
        at + 16 <= data@.len(),
    ensures
        r@ == data@.subrange(at as int, at + 16),
{
    let r: [u8; 16] = [
        data[at],
        data[at + 1],
        data[at + 2],
        data[at + 3],
        data[at + 4],
        data[at + 5],
        data[at + 6],
        data[at + 7],
        data[at + 8],
        data[at + 9],
        data[at + 10],
        data[at + 11],
        data[at + 12],
        data[at + 13],
        data[at + 14],
        data[at + 15],
    ];
    assert(r@ =~= data@.subrange(at as int, at + 16));
    r
}

/// Parses a UoT AddrParser address (ATYP + address + port).
/// Returns `Ok(Some((NetLocation, bytes consumed)))` on success,
/// `Ok(None)` if truncated, `Err` on invalid data.
pub fn parse_uot_address(data: &[u8]) -> (r: Result<Option<(NetLocation, usize)>, Error>)
    ensures
        match r {
            Ok(Some((location, len))) => {
                &&& uot_address(data@) == Ok::<Option<(NetLocationView, int)>, Error>(
                    Some((location@, len as int)),
                )
                &&& 4 <= len <= data@.len()
            },
            Ok(None) => uot_address(data@) == Ok::<Option<(NetLocationView, int)>, Error>(None),
            Err(e) => uot_address(data@) == Err::<Option<(NetLocationView, int)>, Error>(e),
        },
{
    if data.len() == 0 {
        return Ok(None);
    }
    let atyp: u8 = data[0];
    if atyp == UOT_ATYP_IPV4 {
        if data.len() < 7 {
            return Ok(None);
        }
        let ip = four_at(data, 1);
        let port: u16 = util::get_be16(data, 5);
        Ok(Some((NetLocation::new(Address::Ipv4(ip), port), 7)))
    } else if atyp == UOT_ATYP_IPV6 {
        if data.len() < 19 {
            return Ok(None);
        }
        let ip = sixteen_at(data, 1);
        let port: u16 = util::get_be16(data, 17);
        Ok(Some((NetLocation::new(Address::Ipv6(ip), port), 19)))
    } else if atyp == UOT_ATYP_DOMAIN {
        if data.len() < 2 {
            return Ok(None);
        }
        let domain_len: usize = data[1] as usize;
        let total_len: usize = 1 + 1 + domain_len + 2;
        if data.len() < total_len {
            return Ok(None);
        }
        let domain = match text::utf8_str(slice_subrange(data, 2, 2 + domain_len)) {
            Some(domain) => domain,
            None => {
                return Err(Error::InvalidDomain);
            },
        };
        let port: u16 = util::get_be16(data, 2 + domain_len);
        Ok(Some((NetLocation::new(Address::Hostname(domain.to_owned()), port), total_len)))
    } else {
        Err(Error::UnknownAddressType(atyp))
    }
}

/// Writes a UoT AddrParser address (ATYP + address + port). Returns bytes written.
pub fn write_uot_address(buf: &mut [u8], addr: &SocketAddr) -> (r: usize)
    requires
        uot_address_bytes(addr@).len() <= old(buf)@.len(),
    ensures
        r == uot_address_bytes(addr@).len(),
        final(buf)@ == uot_address_bytes(addr@) + old(buf)@.skip(r as int),
{
    let mut bytes: Vec<u8> = Vec::new();
    match addr {
        SocketAddr::V4(ip, port) => {
            bytes.push(UOT_ATYP_IPV4);
            util::push_bytes(&mut bytes, ip.as_slice());
            util::push_be16(&mut bytes, *port);
        },
        SocketAddr::V6(ip, port, _) => {
            bytes.push(UOT_ATYP_IPV6);
            util::push_bytes(&mut bytes, ip.as_slice());
            util::push_be16(&mut bytes, *port);
        },
    }
    assert(bytes@ =~= uot_address_bytes(addr@));
    util::copy_into(buf, 0, bytes.as_slice());
    assert(buf@ =~= uot_address_bytes(addr@) + old(buf)@.skip(bytes@.len() as int));
    bytes.len()
}

/// Reading a written address gives it back, whatever follows it.
pub proof fn uot_address_round_trip(a: SocketAddrView, rest: Seq<u8>)
    requires
        address::socket_wf(a),
    ensures
        uot_address(uot_address_bytes(a) + rest) == Ok::<Option<(NetLocationView, int)>, Error>(
            Some((address::socket_location(a), uot_address_bytes(a).len() as int)),
        ),
{
    let d = uot_address_bytes(a) + rest;
    match a {
        SocketAddrView::V4(ip, port) => {
            assert(d.subrange(1, 5) =~= ip);
            util::be16_round_trip(port);
        },
        SocketAddrView::V6(ip, port, _) => {
            assert(d.subrange(1, 17) =~= ip);
            util::be16_round_trip(port);
        },
    }
}

// ========================= PacketAddrStream ==========================

/// Buffer size for reading and writing packet-address frames.
pub const BUFFER_SIZE: usize = 65535;

/// The packet at the start of some bytes: where it goes, where its payload starts and how
/// long the payload is. `None` where the bytes end within it.
pub open spec fn uot_packet(d: Seq<u8>) -> Result<Option<(NetLocationView, int, int)>, Error> {
    match uot_address(d) {
        Ok(Some((location, n))) => {
            let len = util::be16(d[n], d[n + 1]) as int;
            if d.len() < n + 2 || d.len() < n + 2 + len {
                Ok(None)
            } else {
                Ok(Some((location, n + 2, len)))
            }
        },
        Ok(None) => Ok(None),
        Err(e) => Err(e),
    }
}

/// The frame of a packet: `| ATYP | address | port | length | data |`.
pub open spec fn uot_frame(source: SocketAddrView, data: Seq<u8>) -> Seq<u8> {
    uot_address_bytes(source) + util::be16_bytes(data.len() as u16) + data
}

/// What a packet-address stream has for its reader.
pub enum PacketStep {
    /// A packet: where it goes, and its payload. The location that stands for "none" and no
    /// payload mark the end of the stream.
    Packet(NetLocation, Vec<u8>),
    /// More bytes are needed from the stream below.
    NeedBytes,
}

/// Packet-address stream for multi-destination UDP transports (UoT V1/V2
/// non-connect). Frame format:
/// `| ATYP | address | port | length | data |`
pub struct PacketAddrStream<S> {
    stream: S,
    read_buf: SlideBuffer,
    write_buf: Vec<u8>,
    write_buf_len: usize,
    write_buf_sent: usize,
    is_eof: bool,
}

pub type UotV1ServerStream<S> = PacketAddrStream<S>;

impl<S> PacketAddrStream<S> {
    /// The buffers have their size, and no more is sent than was queued.
    pub closed spec fn wf(self) -> bool {
        &&& self.read_buf.wf()
        &&& self.read_buf.capacity() == BUFFER_SIZE
        &&& self.write_buf@.len() == BUFFER_SIZE
        &&& self.write_buf_sent <= self.write_buf_len <= BUFFER_SIZE
        &&& self.write_buf_sent == self.write_buf_len ==> self.write_buf_len == 0
    }

    /// The stream below.
    pub closed spec fn inner(self) -> S {
        self.stream
    }

    /// The bytes that came in and belong to no packet yet.
    pub closed spec fn received(self) -> Seq<u8> {
        self.read_buf.held()
    }

    /// The read buffer.
    pub closed spec fn reader(self) -> SlideBuffer {
        self.read_buf
    }

    /// The bytes that are queued and not written yet.
    pub closed spec fn unsent(self) -> Seq<u8> {
        self.write_buf@.subrange(self.write_buf_sent as int, self.write_buf_len as int)
    }

    /// Whether the stream below has ended.
    pub closed spec fn eof(self) -> bool {
        self.is_eof
    }

    /// Creates a stream that uses sing UoT `AddrParser` packet addresses.
    pub fn new_uot(stream: S) -> (r: Self)
        ensures
            r.wf(),
            r.inner() == stream,
            r.received() == Seq::<u8>::empty(),
            r.reader().used() == 0,
            r.unsent() == Seq::<u8>::empty(),
            !r.eof(),
    {
        let r = Self {
            stream,
            read_buf: SlideBuffer::new(BUFFER_SIZE),
            write_buf: util::allocate_vec(BUFFER_SIZE),
            write_buf_len: 0,
            write_buf_sent: 0,
            is_eof: false,
        };
        assert(r.unsent() =~= Seq::<u8>::empty());
        r
    }

    fn try_parse_packet(&self) -> (r: Result<Option<(NetLocation, usize, usize)>, Error>)
        requires
            self.wf(),
        ensures
            match r {
                Ok(Some((location, start, len))) => {
                    &&& uot_packet(self.received()) == Ok::<
                        Option<(NetLocationView, int, int)>,
                        Error,
                    >(Some((location@, start as int, len as int)))
                    &&& start + len <= self.received().len()
                },
                Ok(None) => uot_packet(self.received()) == Ok::<
                    Option<(NetLocationView, int, int)>,
                    Error,
                >(None),
                Err(e) => uot_packet(self.received()) == Err::<
                    Option<(NetLocationView, int, int)>,
                    Error,
                >(e),
            },
    {
        let data = self.read_buf.as_slice();
        let (location, addr_len) = match parse_uot_address(data) {
            Ok(Some(result)) => result,
            Ok(None) => {
                return Ok(None);
            },
            Err(e) => {
                return Err(e);
            },
        };
        if data.len() - addr_len < 2 {
            return Ok(None);
        }
        let payload_len: usize = util::get_be16(data, addr_len) as usize;
        let payload_start: usize = addr_len + 2;
        if data.len() - payload_start < payload_len {
            return Ok(None);
        }
        Ok(Some((location, payload_start, payload_len)))
    }

    /// Takes the next packet from the bytes that came in. Where they hold none in full, the
    /// read buffer is made ready for more, and a buffer without room for more is an error.
    pub fn poll_read_targeted_message(&mut self) -> (r: Result<PacketStep, Error>)
        requires
            old(self).wf(),
        ensures
            final(self).wf(),
            final(self).inner() == old(self).inner(),
            final(self).unsent() == old(self).unsent(),
            final(self).eof() == old(self).eof(),
            match r {
                Ok(PacketStep::Packet(location, payload)) => if old(self).eof() {
                    &&& location@ == (NetLocationView {
                        address: AddressView::Ipv4(seq![0u8, 0, 0, 0]),
                        port: 0,
                    })
                    &&& payload@ == Seq::<u8>::empty()
                    &&& *final(self) == *old(self)
                } else {
                    &&& uot_packet(old(self).received()) matches Ok(Some((l, start, len)))
                    &&& l == location@
                    &&& payload@ == old(self).received().subrange(start, start + len)
                    &&& final(self).received() == old(self).received().skip(start + len)
                    &&& final(self).reader().used() == (if start + len
                        == old(self).received().len() {
                        0
                    } else {
                        old(self).reader().used() + start + len
                    })
                },
                Ok(PacketStep::NeedBytes) => {
                    &&& !old(self).eof()
                    &&& uot_packet(old(self).received()) == Ok::<
                        Option<(NetLocationView, int, int)>,
                        Error,
                    >(None)
                    &&& final(self).received() == old(self).received()
                    &&& final(self).reader().used() == (if old(self).reader().used() > 4096 {
                        0
                    } else {
                        old(self).reader().used()
                    })
                    &&& final(self).reader().room().len() > 0
                },
                Err(Error::PacketBufferFull) => {
                    &&& !old(self).eof()
                    &&& uot_packet(old(self).received()) == Ok::<
                        Option<(NetLocationView, int, int)>,
                        Error,
                    >(None)
                    &&& final(self).received() == old(self).received()
                    &&& old(self).reader().used() <= 4096
                    &&& old(self).reader().used() + old(self).received().len() == BUFFER_SIZE
                },
                Err(e) => {
                    &&& !old(self).eof()
                    &&& uot_packet(old(self).received()) == Err::<
                        Option<(NetLocationView, int, int)>,
                        Error,
                    >(e)
                    &&& *final(self) == *old(self)
                },
            },
    {
        if self.is_eof {
            return Ok(PacketStep::Packet(NetLocation::unspecified(), Vec::new()));
        }
        match self.try_parse_packet() {
            Ok(Some((location, payload_start, payload_len))) => {
                let payload = util::copy_range(
                    self.read_buf.as_slice(),
                    payload_start,
                    payload_start + payload_len,
                );
                self.read_buf.consume(payload_start + payload_len);
                return Ok(PacketStep::Packet(location, payload));
            },
            Ok(None) => {},
            Err(e) => {
                return Err(e);
            },
        }
        self.read_buf.maybe_compact(4096);
        if self.read_buf.remaining_capacity() == 0 {
            return Err(Error::PacketBufferFull);
        }
        Ok(PacketStep::NeedBytes)
    }

    /// The stream below, and the free part of the read buffer to read into.
    pub fn read_parts(&mut self) -> (r: (&mut S, &mut [u8]))
        requires
            old(self).wf(),
        ensures
            *r.0 == old(self).inner(),
            r.1@ == old(self).reader().room(),
            final(r.1)@.len() == r.1@.len() ==> {
                &&& final(self).wf()
                &&& final(self).inner() == *final(r.0)
                &&& final(self).unsent() == old(self).unsent()
                &&& final(self).eof() == old(self).eof()
                &&& final(self).received() == old(self).received()
                &&& final(self).reader().used() == old(self).reader().used()
                &&& final(self).reader().room() == final(r.1)@
            },
    {
        (&mut self.stream, self.read_buf.write_slice())
    }

    /// Takes note that `n` bytes came into the read buffer. None at all is the end.
    pub fn bytes_read(&mut self, n: usize)
        requires
            old(self).wf(),
            n <= old(self).reader().room().len(),
        ensures
            final(self).wf(),
            final(self).inner() == old(self).inner(),
            final(self).unsent() == old(self).unsent(),
            final(self).eof() == (old(self).eof() || n == 0),
            final(self).received() == old(self).received() + old(self).reader().room().take(
                n as int,
            ),
            final(self).reader().used() == old(self).reader().used(),
    {
        if n == 0 {
            self.is_eof = true;
            assert(self.received() =~= old(self).received() + old(self).reader().room().take(0));
        } else {
            self.read_buf.advance_write(n);
        }
    }

    /// The stream below, with what is to be written to it, where anything is queued.
    pub fn write_parts(&mut self) -> (r: (&mut S, Option<&[u8]>))
        requires
            old(self).wf(),
        ensures
            *r.0 == old(self).inner(),
            match r.1 {
                Some(s) => s@.len() > 0 && s@ == old(self).unsent(),
                None => old(self).unsent().len() == 0,
            },
            final(self).wf(),
            final(self).inner() == *final(r.0),
            final(self).reader() == old(self).reader(),
            final(self).received() == old(self).received(),
            final(self).eof() == old(self).eof(),
            final(self).unsent() == old(self).unsent(),
    {
        let rest: Option<&[u8]> = if self.write_buf_sent < self.write_buf_len {
            Some(slice_subrange(self.write_buf.as_slice(), self.write_buf_sent, self.write_buf_len))
        } else {
            None
        };
        (&mut self.stream, rest)
    }

    /// Takes note that the stream below took `n` bytes.
    pub fn wrote(&mut self, n: usize)
        requires
            old(self).wf(),
            n <= old(self).unsent().len(),
        ensures
            final(self).wf(),
            final(self).inner() == old(self).inner(),
            final(self).reader() == old(self).reader(),
            final(self).received() == old(self).received(),
            final(self).eof() == old(self).eof(),
            final(self).unsent() == old(self).unsent().skip(n as int),
    {
        self.write_buf_sent = self.write_buf_sent + n;
        if self.write_buf_sent == self.write_buf_len {
            self.write_buf_len = 0;
            self.write_buf_sent = 0;
        }
        assert(self.unsent() =~= old(self).unsent().skip(n as int));
    }

    /// Queues a packet, once everything before it is written. A frame that does not fit the
    /// write buffer is refused.
    pub fn poll_write_sourced_message(&mut self, buf: &[u8], source: &SocketAddr) -> (r: Result<
        (),
        Error,
    >)
        requires
            old(self).wf(),
            old(self).unsent().len() == 0,
        ensures
            final(self).wf(),
            final(self).inner() == old(self).inner(),
            final(self).reader() == old(self).reader(),
            final(self).received() == old(self).received(),
            final(self).eof() == old(self).eof(),
            match r {
                Ok(_) => {
                    &&& uot_address_bytes(source@).len() + 2 + buf@.len() <= BUFFER_SIZE
                    &&& final(self).unsent() == uot_frame(source@, buf@)
                },
                Err(e) => {
                    &&& uot_address_bytes(source@).len() + 2 + buf@.len() > BUFFER_SIZE
                    &&& e == Error::FrameTooLarge
                    &&& final(self).unsent().len() == 0
                },
            },
    {
        let addr_len: usize = match source {
            SocketAddr::V4(_, _) => 7,
            SocketAddr::V6(_, _, _) => 19,
        };
        let n: usize = buf.len();
        if n > BUFFER_SIZE - addr_len - 2 {
            return Err(Error::FrameTooLarge);
        }
        let offset: usize = write_uot_address(self.write_buf.as_mut_slice(), source);
        let ghost after_address = self.write_buf@;
        let mut len_bytes: Vec<u8> = Vec::new();
        util::push_be16(&mut len_bytes, n as u16);
        util::copy_into(self.write_buf.as_mut_slice(), offset, len_bytes.as_slice());
        let ghost after_length = self.write_buf@;
        util::copy_into(self.write_buf.as_mut_slice(), offset + 2, buf);
        self.write_buf_len = offset + 2 + n;
        proof {
            let a = uot_address_bytes(source@);
            assert(after_address.take(offset as int) =~= a);
            assert(after_length.take(offset + 2) =~= a + util::be16_bytes(n as u16));
            assert(self.unsent() =~= uot_frame(source@, buf@));
        }
        Ok(())
    }

    /// Packet-address streams have no ping.
    pub fn supports_ping(&self) -> (r: bool)
        ensures
            !r,
    {
        false
    }
}

/// Reading a written frame gives the packet back, whatever follows it.
pub proof fn uot_frame_round_trip(source: SocketAddrView, data: Seq<u8>, rest: Seq<u8>)
    requires
        address::socket_wf(source),
        data.len() <= 65535,
    ensures
        ({
            let start = uot_address_bytes(source).len() as int + 2;
            let d = uot_frame(source, data) + rest;
            &&& uot_packet(d) == Ok::<Option<(NetLocationView, int, int)>, Error>(
                Some((address::socket_location(source), start, data.len() as int)),
            )
            &&& d.subrange(start, start + data.len()) == data
            &&& d.skip(start + data.len()) == rest
        }),
{
    let a = uot_address_bytes(source);
    let d = uot_frame(source, data) + rest;
    let tail = util::be16_bytes(data.len() as u16) + data + rest;
    assert(d =~= a + tail);
    uot_address_round_trip(source, tail);
    util::be16_round_trip(data.len() as u16);
    let start = a.len() as int + 2;
    assert(d[start - 2] == util::be16_bytes(data.len() as u16)[0]);
    assert(d[start - 1] == util::be16_bytes(data.len() as u16)[1]);
    assert(d.subrange(start, start + data.len()) =~= data);
    assert(d.skip(start + data.len()) =~= rest);
}

/// The packets in some bytes, up to what is no whole packet.
pub open spec fn packets_in(d: Seq<u8>) -> Seq<(NetLocationView, Seq<u8>)>
    decreases d.len(),
{
    match uot_packet(d) {
        Ok(Some((location, start, len))) => if 0 < start + len <= d.len() {
            seq![(location, d.subrange(start, start + len))] + packets_in(d.skip(start + len))
        } else {
            Seq::empty()
        },
        _ => Seq::empty(),
    }
}

/// The frames of some packets, one after the other.
pub open spec fn uot_frames(packets: Seq<(SocketAddrView, Seq<u8>)>) -> Seq<u8>
    decreases packets.len(),
{
    if packets.len() == 0 {
        Seq::empty()
    } else {
        uot_frame(packets[0].0, packets[0].1) + uot_frames(packets.skip(1))
    }
}

/// Reading written packets gives all of them back, in their order.
pub proof fn uot_frames_round_trip(packets: Seq<(SocketAddrView, Seq<u8>)>)
    requires
        forall|i: int|
            0 <= i < packets.len() ==> address::socket_wf((#[trigger] packets[i]).0)
                && packets[i].1.len() <= 65535,
    ensures
        packets_in(uot_frames(packets)) == packets.map_values(
            |p: (SocketAddrView, Seq<u8>)| (address::socket_location(p.0), p.1),
        ),
    decreases packets.len(),
{
    let read = |p: (SocketAddrView, Seq<u8>)| (address::socket_location(p.0), p.1);
    let d = uot_frames(packets);
    if packets.len() == 0 {
        assert(packets_in(d) =~= packets.map_values(read));
    } else {
        let (source, data) = packets[0];
        let others = packets.skip(1);
        assert forall|i: int| 0 <= i < others.len() implies address::socket_wf(
            (#[trigger] others[i]).0,
        ) && others[i].1.len() <= 65535 by {
            assert(others[i] == packets[i + 1]);
        }
        uot_frame_round_trip(source, data, uot_frames(others));
        uot_frames_round_trip(others);
        assert(packets_in(d) =~= packets.map_values(read)) by {
            assert(seq![read(packets[0])] + others.map_values(read) =~= packets.map_values(read));
        }
    }
}

/// An address that is settled stays settled.
proof fn lemma_address_prefix(d: Seq<u8>, rest: Seq<u8>)
    requires
        uot_address(d) != Ok::<Option<(NetLocationView, int)>, Error>(None),
    ensures
        uot_address(d + rest) == uot_address(d),
        uot_address(d) matches Ok(Some((_, n))) ==> 0 < n <= d.len(),
{
    assert(d.len() > 0);
    assert((d + rest)[0] == d[0]);
    if d[0] == UOT_ATYP_IPV4 {
        assert((d + rest).subrange(1, 5) =~= d.subrange(1, 5));
    } else if d[0] == UOT_ATYP_IPV6 {
        assert((d + rest).subrange(1, 17) =~= d.subrange(1, 17));
    } else if d[0] == UOT_ATYP_DOMAIN {
        assert((d + rest).subrange(2, 2 + d[1]) =~= d.subrange(2, 2 + d[1]));
    }
}

/// A packet that is settled stays settled: however its bytes are cut into pieces on their way,
/// the same packet or the same error comes out.
pub proof fn uot_packet_prefix(d: Seq<u8>, rest: Seq<u8>)
    requires
        uot_packet(d) != Ok::<Option<(NetLocationView, int, int)>, Error>(None),
    ensures
        uot_packet(d + rest) == uot_packet(d),
{
    lemma_address_prefix(d, rest);
}

// ========================= VlessMessageStream =========================

/// Buffer size of a length-prefixed message stream: the longest message and its length.
pub const MESSAGE_BUFFER_SIZE: usize = 65537;

/// A message behind its length.
pub open spec fn message_frame(data: Seq<u8>) -> Seq<u8> {
    util::be16_bytes(data.len() as u16) + data
}

/// The first message in some bytes, where they hold it in full.
pub open spec fn first_message(d: Seq<u8>) -> Option<Seq<u8>> {
    if d.len() >= 2 && d.len() >= 2 + util::be16(d[0], d[1]) {
        Some(d.subrange(2, 2 + util::be16(d[0], d[1])))
    } else {
        None
    }
}

/// What a length-prefixed message stream has for its reader.
pub enum MessageStep {
    /// A message.
    Message(Vec<u8>),
    /// The stream has ended.
    End,
    /// More bytes are needed from the stream below.
    NeedBytes,
}

/// Length-prefixed (u16be) message stream, used by UoT V2 connect mode.
pub struct VlessMessageStream<S> {
    stream: S,
    read_buf: Vec<u8>,
    read_end_index: usize,
    pending_write: Vec<u8>,
    write_offset: usize,
    is_eof: bool,
}

impl<S> VlessMessageStream<S> {
    /// The read buffer has its size, and no more is written than was queued.
    pub closed spec fn wf(self) -> bool {
        &&& self.read_buf@.len() == MESSAGE_BUFFER_SIZE
        &&& self.read_end_index <= MESSAGE_BUFFER_SIZE
        &&& self.write_offset <= self.pending_write@.len()
    }

    /// The stream below.
    pub closed spec fn inner(self) -> S {
        self.stream
    }

    /// The bytes that came in and belong to no message yet.
    pub closed spec fn received(self) -> Seq<u8> {
        self.read_buf@.take(self.read_end_index as int)
    }

    /// The free part of the read buffer.
    pub closed spec fn room(self) -> Seq<u8> {
        self.read_buf@.skip(self.read_end_index as int)
    }

    /// The bytes that are queued and not flushed yet.
    pub closed spec fn pending(self) -> Seq<u8> {
        self.pending_write@
    }

    /// How many of the queued bytes the stream below has taken.
    pub closed spec fn taken(self) -> nat {
        self.write_offset as nat
    }

    /// Whether the stream below has ended.
    pub closed spec fn eof(self) -> bool {
        self.is_eof
    }

    /// A message stream that speaks through `stream`.
    pub fn new(stream: S) -> (r: Self)
        ensures
            r.wf(),
            r.inner() == stream,
            r.received() == Seq::<u8>::empty(),
            r.pending() == Seq::<u8>::empty(),
            r.taken() == 0,
            !r.eof(),
    {
        let r = Self {
            stream,
            read_buf: util::allocate_vec(MESSAGE_BUFFER_SIZE),
            read_end_index: 0,
            pending_write: Vec::new(),
            write_offset: 0,
            is_eof: false,
        };
        assert(r.received() =~= Seq::<u8>::empty());
        r
    }

    /// The stream below.
    pub fn stream(&self) -> (r: &S)
        ensures
            *r == self.inner(),
    {
        &self.stream
    }

    /// Takes the next message from the bytes that came in, for a reader with room for
    /// `out_room` bytes. Where more bytes are needed, there is room for them.
    pub fn poll_read_message(&mut self, out_room: usize) -> (r: Result<MessageStep, Error>)
        requires
            old(self).wf(),
        ensures
            final(self).wf(),
            final(self).inner() == old(self).inner(),
            final(self).pending() == old(self).pending(),
            final(self).taken() == old(self).taken(),
            final(self).eof() == old(self).eof(),
            match r {
                Ok(MessageStep::End) => old(self).eof() && *final(self) == *old(self),
                Ok(MessageStep::Message(m)) => {
                    &&& !old(self).eof()
                    &&& first_message(old(self).received()) == Some(m@)
                    &&& m@.len() <= out_room
                    &&& final(self).received() == old(self).received().skip(2 + m@.len() as int)
                },
                Ok(MessageStep::NeedBytes) => {
                    &&& !old(self).eof()
                    &&& first_message(old(self).received()) is None
                    &&& old(self).room().len() > 0
                    &&& *final(self) == *old(self)
                },
                Err(e) => {
                    &&& !old(self).eof()
                    &&& first_message(old(self).received()) matches Some(m) && m.len() > out_room
                    &&& e == Error::OutputTooSmall
                    &&& *final(self) == *old(self)
                },
            },
    {
        if self.is_eof {
            return Ok(MessageStep::End);
        }
        if self.read_end_index >= 2 {
            let payload_len: usize = util::get_be16(self.read_buf.as_slice(), 0) as usize;
            let total_len: usize = 2 + payload_len;
            if self.read_end_index >= total_len {
                if out_room < payload_len {
                    return Err(Error::OutputTooSmall);
                }
                let m = util::copy_range(self.read_buf.as_slice(), 2, total_len);
                assert(m@ =~= self.received().subrange(2, total_len as int));
                if self.read_end_index > total_len {
                    util::move_to_front(&mut self.read_buf, total_len, self.read_end_index);
                    self.read_end_index = self.read_end_index - total_len;
                } else {
                    self.read_end_index = 0;
                }
                assert(self.received() =~= old(self).received().skip(total_len as int));
                return Ok(MessageStep::Message(m));
            }
        }
        Ok(MessageStep::NeedBytes)
    }

    /// The stream below, and the free part of the read buffer to read into.
    pub fn read_parts(&mut self) -> (r: (&mut S, &mut [u8]))
        requires
            old(self).wf(),
        ensures
            *r.0 == old(self).inner(),
            r.1@ == old(self).room(),
            final(r.1)@.len() == r.1@.len() ==> {
                &&& final(self).wf()
                &&& final(self).inner() == *final(r.0)
                &&& final(self).pending() == old(self).pending()
                &&& final(self).taken() == old(self).taken()
                &&& final(self).eof() == old(self).eof()
                &&& final(self).received() == old(self).received()
                &&& final(self).room() == final(r.1)@
            },
    {
        let (front, back) = self.read_buf.as_mut_slice().split_at_mut(self.read_end_index);
        (&mut self.stream, back)
    }

    /// Takes note that `n` bytes came into the read buffer. None at all is the end, which is
    /// an error within a message.
    pub fn bytes_read(&mut self, n: usize) -> (r: Result<(), Error>)
        requires
            old(self).wf(),
            n <= old(self).room().len(),
        ensures
            final(self).wf(),
            final(self).inner() == old(self).inner(),
            final(self).pending() == old(self).pending(),
            final(self).taken() == old(self).taken(),
            final(self).eof() == (old(self).eof() || n == 0),
            final(self).received() == old(self).received() + old(self).room().take(n as int),
            match r {
                Ok(_) => n > 0 || old(self).received().len() == 0,
                Err(e) => n == 0 && old(self).received().len() > 0 && e == Error::EofInMessage,
            },
    {
        assert(self.received() =~= old(self).received() + old(self).room().take(0));
        if n == 0 {
            self.is_eof = true;
            if self.read_end_index == 0 {
                return Ok(());
            } else {
                return Err(Error::EofInMessage);
            }
        }
        self.read_end_index = self.read_end_index + n;
        assert(self.received() =~= old(self).received() + old(self).room().take(n as int));
        Ok(())
    }

    /// Whether a queued message has to be flushed before the next one.
    pub fn must_flush(&self) -> (r: bool)
        ensures
            r == (self.pending().len() > 0),
    {
        self.pending_write.len() > 0
    }

    /// Queues a message, once the one before it is flushed.
    pub fn poll_write_message(&mut self, buf: &[u8]) -> (r: Result<(), Error>)
        requires
            old(self).wf(),
            old(self).pending().len() == 0,
        ensures
            final(self).wf(),
            final(self).inner() == old(self).inner(),
            final(self).received() == old(self).received(),
            final(self).room() == old(self).room(),
            final(self).eof() == old(self).eof(),
            match r {
                Ok(_) => {
                    &&& buf@.len() <= 65535
                    &&& final(self).pending() == message_frame(buf@)
                    &&& final(self).taken() == 0
                },
                Err(e) => {
                    &&& buf@.len() > 65535
                    &&& e == Error::MessageTooLarge
                    &&& *final(self) == *old(self)
                },
            },
    {
        if buf.len() > 65535 {
            return Err(Error::MessageTooLarge);
        }
        util::push_be16(&mut self.pending_write, buf.len() as u16);
        util::push_bytes(&mut self.pending_write, buf);
        self.write_offset = 0;
        assert(self.pending() =~= message_frame(buf@));
        Ok(())
    }

    /// The stream below, with what is to be written to it. `None`: everything queued is
    /// written, and the stream below is to be flushed.
    pub fn poll_flush_message(&mut self) -> (r: (&mut S, Option<&[u8]>))
        requires
            old(self).wf(),
        ensures
            *r.0 == old(self).inner(),
            match r.1 {
                Some(s) => s@.len() > 0 && s@ == old(self).pending().skip(old(self).taken() as int),
                None => old(self).taken() == old(self).pending().len(),
            },
            final(self).wf(),
            final(self).inner() == *final(r.0),
            final(self).received() == old(self).received(),
            final(self).room() == old(self).room(),
            final(self).eof() == old(self).eof(),
            final(self).pending() == old(self).pending(),
            final(self).taken() == old(self).taken(),
    {
        let n: usize = self.pending_write.len();
        let rest: Option<&[u8]> = if self.write_offset < n {
            let s = slice_subrange(self.pending_write.as_slice(), self.write_offset, n);
            assert(s@ =~= self.pending_write@.skip(self.write_offset as int));
            Some(s)
        } else {
            None
        };
        (&mut self.stream, rest)
    }

    /// Takes note that the stream below took `n` bytes. A stream that takes none has failed.
    pub fn wrote(&mut self, n: usize) -> (r: Result<(), Error>)
        requires
            old(self).wf(),
            n <= old(self).pending().len() - old(self).taken(),
        ensures
            final(self).wf(),
            final(self).inner() == old(self).inner(),
            final(self).received() == old(self).received(),
            final(self).room() == old(self).room(),
            final(self).eof() == old(self).eof(),
            final(self).pending() == old(self).pending(),
            final(self).taken() == old(self).taken() + n,
            match r {
                Ok(_) => n > 0,
                Err(e) => n == 0 && e == Error::WriteZero,
            },
    {
        if n == 0 {
            return Err(Error::WriteZero);
        }
        assert(self.pending_write.len() == self.pending_write@.len());
        self.write_offset = self.write_offset + n;
        Ok(())
    }

    /// Takes note that the stream below is flushed.
    pub fn flushed(&mut self)
        requires
            old(self).wf(),
            old(self).taken() == old(self).pending().len(),
        ensures
            final(self).wf(),
            final(self).inner() == old(self).inner(),
            final(self).received() == old(self).received(),
            final(self).room() == old(self).room(),
            final(self).eof() == old(self).eof(),
            final(self).pending() == Seq::<u8>::empty(),
            final(self).taken() == 0,
    {
        self.pending_write.clear();
        self.write_offset = 0;
    }
}

/// A message that is there stays there: however its bytes are cut into pieces on their way, the
/// same message comes out.
pub proof fn message_prefix(d: Seq<u8>, rest: Seq<u8>)
    requires
        first_message(d) is Some,
    ensures
        first_message(d + rest) == first_message(d),
{
    let end = 2 + util::be16(d[0], d[1]);
    assert((d + rest).subrange(2, end) =~= d.subrange(2, end));
}

/// Reading a written message gives it back, whatever follows it.
pub proof fn message_round_trip(data: Seq<u8>, rest: Seq<u8>)
    requires
        data.len() <= 65535,
    ensures
        first_message(message_frame(data) + rest) == Some(data),
        (message_frame(data) + rest).skip(2 + data.len() as int) == rest,
{
    let d = message_frame(data) + rest;
    util::be16_round_trip(data.len() as u16);
    assert(d.subrange(2, 2 + data.len() as int) =~= data);
    assert(d.skip(2 + data.len() as int) =~= rest);
}

/// The messages in some bytes, up to what is no whole message.
pub open spec fn messages_in(d: Seq<u8>) -> Seq<Seq<u8>>
    decreases d.len(),
{
    match first_message(d) {
        Some(message) => seq![message] + messages_in(d.skip(2 + message.len() as int)),
        None => Seq::empty(),
    }
}

/// Some messages behind their lengths, one after the other.
pub open spec fn message_frames(messages: Seq<Seq<u8>>) -> Seq<u8>
    decreases messages.len(),
{
    if messages.len() == 0 {
        Seq::empty()
    } else {
        message_frame(messages[0]) + message_frames(messages.skip(1))
    }
}

/// Reading written messages gives all of them back, in their order.
pub proof fn message_frames_round_trip(messages: Seq<Seq<u8>>)
    requires
        forall|i: int| 0 <= i < messages.len() ==> (#[trigger] messages[i]).len() <= 65535,
    ensures
        messages_in(message_frames(messages)) == messages,
    decreases messages.len(),
{
    if messages.len() == 0 {
        assert(messages_in(message_frames(messages)) =~= messages);
    } else {
        let others = messages.skip(1);
        assert forall|i: int| 0 <= i < others.len() implies (#[trigger] others[i]).len()
            <= 65535 by {
            assert(others[i] == messages[i + 1]);
        }
        message_round_trip(messages[0], message_frames(others));
        message_frames_round_trip(others);
        assert(seq![messages[0]] + others =~= messages);
    }
}

/// The address of a packet is read from its kind, its bytes and its port: four bytes behind a
/// zero, sixteen behind a one, and a name behind a two and its length. A name stays a name, even
/// one that spells an IP address. What follows does not count.
pub proof fn packet_addresses_are_read(ip: Seq<u8>, name: Seq<u8>, port: u16, rest: Seq<u8>)
    ensures
        ip.len() == 4 ==> uot_address(seq![0u8] + ip + util::be16_bytes(port) + rest) == Ok::<
            Option<(NetLocationView, int)>,
            Error,
        >(Some((NetLocationView { address: AddressView::Ipv4(ip), port }, 7))),
        ip.len() == 16 ==> uot_address(seq![1u8] + ip + util::be16_bytes(port) + rest) == Ok::<
            Option<(NetLocationView, int)>,
            Error,
        >(Some((NetLocationView { address: AddressView::Ipv6(ip), port }, 19))),
        name.len() <= 255 ==> {
            let d = seq![2u8, name.len() as u8] + name + util::be16_bytes(port) + rest;
            &&& valid_utf8(name) ==> uot_address(d) == Ok::<Option<(NetLocationView, int)>, Error>(
                Some(
                    (
                        NetLocationView { address: AddressView::Hostname(decode_utf8(name)), port },
                        4 + name.len() as int,
                    ),
                ),
            )
            &&& !valid_utf8(name) ==> uot_address(d) == Err::<
                Option<(NetLocationView, int)>,
                Error,
            >(Error::InvalidDomain)
        },
{
    let bytes = util::be16_bytes(port);
    util::big_endian_order(bytes[0], bytes[1], 0, 0, port, 0);
    if ip.len() == 4 {
        let d = seq![0u8] + ip + bytes + rest;
        assert(d[5] == bytes[0] && d[6] == bytes[1]);
        assert(d.subrange(1, 5) =~= ip);
    }
    if ip.len() == 16 {
        let d = seq![1u8] + ip + bytes + rest;
        assert(d[17] == bytes[0] && d[18] == bytes[1]);
        assert(d.subrange(1, 17) =~= ip);
    }
    if name.len() <= 255 {
        let d = seq![2u8, name.len() as u8] + name + bytes + rest;
        let n = name.len() as int;
        assert(d[1] == n);
        assert(d[n + 2] == bytes[0] && d[n + 3] == bytes[1]);
        assert(d.subrange(2, 2 + d[1]) =~= name);
    }
}

/// An address is read once all of its bytes are there, and a kind of address that does not exist
/// is refused at once.
pub proof fn packet_addresses_are_awaited(d: Seq<u8>)
    ensures
        uot_address(d) == Ok::<Option<(NetLocationView, int)>, Error>(None) <==> {
            ||| d.len() == 0
            ||| d[0] == 0 && d.len() < 7
            ||| d[0] == 1 && d.len() < 19
            ||| d[0] == 2 && (d.len() < 2 || d.len() < 4 + d[1])
        },
        d.len() > 0 && d[0] > 2 ==> uot_address(d) == Err::<Option<(NetLocationView, int)>, Error>(
            Error::UnknownAddressType(d[0]),
        ),
{
}

/// A packet is its address, the length of its payload in two bytes, and the payload. It is read
/// with its last byte and no sooner, whatever follows; and an address that is refused makes the
/// packet be refused.
pub proof fn packets_are_read(d: Seq<u8>, n: int, location: NetLocationView, e: Error)
    ensures
        uot_address(d) == Ok::<Option<(NetLocationView, int)>, Error>(Some((location, n))) ==> {
            let len = d[n] * 256 + d[n + 1];
            &&& d.len() < n + 2 ==> uot_packet(d) == Ok::<
                Option<(NetLocationView, int, int)>,
                Error,
            >(None)
            &&& n + 2 <= d.len() < n + 2 + len ==> uot_packet(d) == Ok::<
                Option<(NetLocationView, int, int)>,
                Error,
            >(None)
            &&& d.len() >= n + 2 + len ==> uot_packet(d) == Ok::<
                Option<(NetLocationView, int, int)>,
                Error,
            >(Some((location, n + 2, len)))
        },
        uot_address(d) == Ok::<Option<(NetLocationView, int)>, Error>(None) ==> uot_packet(d)
            == Ok::<Option<(NetLocationView, int, int)>, Error>(None),
        uot_address(d) == Err::<Option<(NetLocationView, int)>, Error>(e) ==> uot_packet(d) == Err::<
            Option<(NetLocationView, int, int)>,
            Error,
        >(e),
{
    util::big_endian_order(d[n], d[n + 1], 0, 0, 0, 0);
}

/// A message is as long as its first two bytes say, and is read with its last byte and no sooner.
pub proof fn messages_are_read(d: Seq<u8>)
    ensures
        d.len() < 2 ==> first_message(d) is None,
        d.len() >= 2 ==> {
            let len = d[0] * 256 + d[1];
            &&& d.len() < 2 + len ==> first_message(d) is None
            &&& d.len() >= 2 + len ==> first_message(d) == Some(d.subrange(2, 2 + len))
        },
{
    if d.len() >= 2 {
        util::big_endian_order(d[0], d[1], 0, 0, 0, 0);
    }
}

} // verus!
