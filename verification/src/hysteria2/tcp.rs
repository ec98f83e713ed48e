//! Requests for a TCP connection.

use vstd::prelude::*;
use vstd::slice::slice_subrange;
use vstd::utf8::*;

use crate::address;
use crate::address::{NetLocation, NetLocationView};
use crate::error::Error;
use crate::hysteria2::varint;
use crate::random;
use crate::stream_reader::StreamReader;
use crate::text;
use crate::util;

verus! {

/// TCP request frame type constant from Hysteria2 protocol.
pub const FRAME_TYPE_TCP_REQUEST: u64 = 0x401;

/// The longest address of a request.
pub const MAX_ADDRESS_LEN: u64 = 2048;

/// The longest padding of a request.
pub const MAX_PADDING_LEN: u64 = 4096;

/// Size of the buffer that a request is read through. No request is longer.
pub const REQUEST_BUFFER_SIZE: usize = 8192;

/// The location that bytes spell, with a port.
#[verifier::opaque]
pub open spec fn location_in(s: Seq<u8>) -> Result<NetLocationView, Error> {
    if valid_utf8(s) {
        address::location_of(s, None)
    } else {
        Err(Error::InvalidAddressEncoding)
    }
}

/// The padding behind an address: where it ends. `None` where the bytes end within it.
pub open spec fn padding_end(d: Seq<u8>, at: int) -> Result<Option<int>, Error> {
    match varint::first_varint(d.skip(at)) {
        None => Ok(None),
        Some((len, n)) => if len > MAX_PADDING_LEN {
            Err(Error::InvalidPaddingLength)
        } else if d.len() < at + n + len {
            Ok(None)
        } else {
            Ok(Some(at + n + len))
        },
    }
}

/// The request at the start of some bytes, with its length: the frame type, the length of the
/// address and the address, the length of the padding and the padding. `None` where the bytes
/// end within it.
pub open spec fn tcp_request(d: Seq<u8>) -> Result<Option<(NetLocationView, int)>, Error> {
    match varint::first_varint(d) {
        None => Ok(None),
        Some((id, a)) => if id != FRAME_TYPE_TCP_REQUEST {
            Err(Error::InvalidRequestId)
        } else {
            match varint::first_varint(d.skip(a as int)) {
                None => Ok(None),
                Some((len, b)) => if len > MAX_ADDRESS_LEN {
                    Err(Error::InvalidAddressLength)
                } else if d.len() < a + b + len {
                    Ok(None)
                } else {
                    match location_in(d.subrange((a + b) as int, (a + b + len) as int)) {
                        Err(e) => Err(e),
                        Ok(location) => match padding_end(d, (a + b + len) as int) {
                            Err(e) => Err(e),
                            Ok(None) => Ok(None),
                            Ok(Some(end)) => Ok(Some((location, end))),
                        },
                    }
                },
            }
        },
    }
}

/// More bytes do not change where a padding ends.
proof fn lemma_padding_prefix(d: Seq<u8>, rest: Seq<u8>, at: int)
    requires
        0 <= at <= d.len(),
        padding_end(d, at) != Ok::<Option<int>, Error>(None),
    ensures
        padding_end(d + rest, at) == padding_end(d, at),
{
    assert((d + rest).skip(at) =~= d.skip(at) + rest);
    varint::varint_prefix(d.skip(at), rest);
}

/// A request that is settled stays settled: however its bytes are cut into pieces on their
/// way, the same request or the same error comes out.
pub proof fn tcp_request_prefix(d: Seq<u8>, rest: Seq<u8>)
    requires
        tcp_request(d) != Ok::<Option<(NetLocationView, int)>, Error>(None),
    ensures
        tcp_request(d + rest) == tcp_request(d),
{
    varint::varint_prefix(d, rest);
    let (id, a) = varint::first_varint(d)->0;
    if id == FRAME_TYPE_TCP_REQUEST {
        assert((d + rest).skip(a as int) =~= d.skip(a as int) + rest);
        varint::varint_prefix(d.skip(a as int), rest);
        let (len, b) = varint::first_varint(d.skip(a as int))->0;
        if len <= MAX_ADDRESS_LEN {
            let from = (a + b) as int;
            let to = (a + b + len) as int;
            assert((d + rest).subrange(from, to) =~= d.subrange(from, to));
            if location_in(d.subrange(from, to)) is Ok {
                lemma_padding_prefix(d, rest, to);
            }
        }
    }
}

/// The bytes of a request.
pub open spec fn tcp_request_bytes(address: Seq<u8>, padding: Seq<u8>) -> Seq<u8> {
    varint::varint_bytes(FRAME_TYPE_TCP_REQUEST as nat)->0 + (varint::varint_bytes(address.len())->0
        + (address + (varint::varint_bytes(padding.len())->0 + padding)))
}

/// A request that is written is read back, whatever its padding and whatever follows it.
pub proof fn tcp_request_round_trip(
    address: Seq<u8>,
    padding: Seq<u8>,
    location: NetLocationView,
    rest: Seq<u8>,
)
    requires
        address.len() <= MAX_ADDRESS_LEN,
        padding.len() <= MAX_PADDING_LEN,
        location_in(address) == Ok::<NetLocationView, Error>(location),
    ensures
        tcp_request(tcp_request_bytes(address, padding) + rest) == Ok::<
            Option<(NetLocationView, int)>,
            Error,
        >(Some((location, tcp_request_bytes(address, padding).len() as int))),
{
    let id = varint::varint_bytes(FRAME_TYPE_TCP_REQUEST as nat)->0;
    let len = varint::varint_bytes(address.len())->0;
    let padding_len = varint::varint_bytes(padding.len())->0;
    let d = tcp_request_bytes(address, padding) + rest;
    let behind_address = padding_len + (padding + rest);
    let behind_id = len + (address + behind_address);
    varint::varint_round_trip(FRAME_TYPE_TCP_REQUEST as nat, behind_id);
    varint::varint_round_trip(address.len(), address + behind_address);
    varint::varint_round_trip(padding.len(), padding + rest);
    assert(d =~= id + behind_id);
    assert(d.skip(id.len() as int) =~= behind_id);
    let from = (id.len() + len.len()) as int;
    let to = from + address.len();
    assert(d.subrange(from, to) =~= address);
    assert(d.skip(to) =~= behind_address);
}

pub(crate) fn read_location(s: &[u8]) -> (r: Result<NetLocation, Error>)
    ensures
        match r {
            Ok(location) => location_in(s@) == Ok::<NetLocationView, Error>(location@),
            Err(e) => location_in(s@) == Err::<NetLocationView, Error>(e),
        },
{
    proof {
        reveal(location_in);
    }
    match text::utf8_str(s) {
        Some(address) => {
            proof {
                decode_utf8_encode_utf8(s@);
            }
            NetLocation::from_str(address, None)
        },
        None => Err(Error::InvalidAddressEncoding),
    }
}

/// Reads the request at the start of some bytes.
fn parse_tcp_request(data: &[u8]) -> (r: Result<Option<(NetLocation, usize)>, Error>)
    ensures
        match r {
            Ok(Some((location, end))) => {
                &&& tcp_request(data@) == Ok::<Option<(NetLocationView, int)>, Error>(
                    Some((location@, end as int)),
                )
                &&& end <= data@.len()
            },
            Ok(None) => {
                &&& tcp_request(data@) == Ok::<Option<(NetLocationView, int)>, Error>(None)
                &&& data@.len() < REQUEST_BUFFER_SIZE
            },
            Err(e) => tcp_request(data@) == Err::<Option<(NetLocationView, int)>, Error>(e),
        },
{
    let total: usize = data.len();
    let (id, a): (u64, usize) = match varint::decode_varint(data) {
        Some(v) => v,
        None => {
            return Ok(None);
        },
    };
    if id != FRAME_TYPE_TCP_REQUEST {
        return Err(Error::InvalidRequestId);
    }
    let rest = slice_subrange(data, a, total);
    assert(rest@ =~= data@.skip(a as int));
    let (len, b): (u64, usize) = match varint::decode_varint(rest) {
        Some(v) => v,
        None => {
            return Ok(None);
        },
    };
    if len > MAX_ADDRESS_LEN {
        return Err(Error::InvalidAddressLength);
    }
    let from: usize = a + b;
    let to: usize = from + len as usize;
    if total < to {
        return Ok(None);
    }
    let location = match read_location(slice_subrange(data, from, to)) {
        Ok(location) => location,
        Err(e) => {
            return Err(e);
        },
    };
    let tail = slice_subrange(data, to, total);
    assert(tail@ =~= data@.skip(to as int));
    let (padding_len, c): (u64, usize) = match varint::decode_varint(tail) {
        Some(v) => v,
        None => {
            return Ok(None);
        },
    };
    if padding_len > MAX_PADDING_LEN {
        return Err(Error::InvalidPaddingLength);
    }
    let end: usize = to + c + padding_len as usize;
    if total < end {
        return Ok(None);
    }
    Ok(Some((location, end)))
}

/// Takes a request from a reader. `None`: more bytes are needed, and there is room for them.
pub fn handle_tcp_header(stream_reader: &mut StreamReader) -> (r: Result<Option<NetLocation>, Error>)
    requires
        old(stream_reader).wf(),
        old(stream_reader).capacity() >= REQUEST_BUFFER_SIZE,
    ensures
        final(stream_reader).wf(),
        final(stream_reader).capacity() == old(stream_reader).capacity(),
        match r {
            Ok(Some(location)) => {
                &&& tcp_request(old(stream_reader).unread()) matches Ok(Some((l, end)))
                &&& location@ == l
                &&& final(stream_reader).unread() == old(stream_reader).unread().skip(end)
            },
            Ok(None) => {
                &&& tcp_request(old(stream_reader).unread()) == Ok::<
                    Option<(NetLocationView, int)>,
                    Error,
                >(None)
                &&& *final(stream_reader) == *old(stream_reader)
                &&& old(stream_reader).unread().len() < old(stream_reader).capacity()
            },
            Err(e) => {
                &&& tcp_request(old(stream_reader).unread()) == Err::<
                    Option<(NetLocationView, int)>,
                    Error,
                >(e)
                &&& *final(stream_reader) == *old(stream_reader)
            },
        },
{
    match parse_tcp_request(stream_reader.unparsed_data()) {
        Ok(Some((location, end))) => {
            stream_reader.consume(end);
            Ok(Some(location))
        },
        Ok(None) => Ok(None),
        Err(e) => Err(e),
    }
}

/// The answer that a connection is being made: a status of zero, no message, and padding.
pub fn tcp_response(padding: &[u8]) -> (r: Vec<u8>)
    requires
        padding@.len() <= 63,
    ensures
        r@ == seq![0u8, 0, padding@.len() as u8] + padding@,
{
    let mut r: Vec<u8> = Vec::new();
    r.push(0);
    r.push(0);
    r.push(padding.len() as u8);
    util::push_bytes(&mut r, padding);
    assert(r@ =~= seq![0u8, 0, padding@.len() as u8] + padding@);
    r
}

/// The answer that a connection is being made, with random padding.
pub fn random_tcp_response() -> (r: Vec<u8>)
    ensures
        3 <= r@.len() <= 66,
        r@.take(3) == seq![0u8, 0, (r@.len() - 3) as u8],
{
    let padding_len: i64 = random::random_range(0, 63);
    let mut padding: Vec<u8> = util::allocate_vec(padding_len as usize);
    random::fill_bytes(padding.as_mut_slice());
    let r = tcp_response(padding.as_slice());
    assert(r@.take(3) =~= seq![0u8, 0, (r@.len() - 3) as u8]);
    r
}

// ============================== relaying =============================

/// Seconds within which a destination has to be connected.
pub const CLIENT_SETUP_TIMEOUT_SECS: u64 = 60;

/// Size of the buffers that data is copied through.
pub const COPY_BUFFER_SIZE: usize = 32768;

/// What came of connecting to a destination.
#[derive(Debug, Clone, Copy, PartialEq, Eq, Structural)]
pub enum SetupResult {
    Connected,
    Failed,
    TimedOut,
}

/// How a request is served.
pub enum TcpPlan {
    /// Data is copied both ways, behind what came with the request. Where something did, the
    /// destination has to be flushed.
    Relay(Option<Vec<u8>>),
    /// The client is shut down, and the error of connecting handed on.
    GiveUp,
    /// The client is shut down, with a timeout.
    GiveUpTimedOut,
}

/// Decides how a request is served, by what came of connecting and by what came with it.
pub fn process_tcp_stream(setup: SetupResult, stream_reader: &StreamReader) -> (r: TcpPlan)
    requires
        stream_reader.wf(),
    ensures
        match setup {
            SetupResult::Connected => match r {
                TcpPlan::Relay(Some(data)) => data@.len() > 0 && data@ == stream_reader.unread(),
                TcpPlan::Relay(None) => stream_reader.unread().len() == 0,
                _ => false,
            },
            SetupResult::Failed => r is GiveUp,
            SetupResult::TimedOut => r is GiveUpTimedOut,
        },
{
    match setup {
        SetupResult::Connected => TcpPlan::Relay(stream_reader.unparsed_data_owned()),
        SetupResult::Failed => TcpPlan::GiveUp,
        SetupResult::TimedOut => TcpPlan::GiveUpTimedOut,
    }
}

/// An address is a location that is spelled with a port; what is no text is refused as such.
pub proof fn addresses_are_spelled_locations(s: Seq<u8>)
    ensures
        valid_utf8(s) ==> location_in(s) == address::location_of(s, None),
        !valid_utf8(s) ==> location_in(s) == Err::<NetLocationView, Error>(
            Error::InvalidAddressEncoding,
        ),
{
    reveal(location_in);
}

/// A request starts with the number 1025, followed by an address of up to 2048 bytes and padding
/// of up to 4096 bytes, each behind its length. It is read back with the number of its bytes,
/// whatever follows, and no sooner than its last byte is there.
pub proof fn requests_are_read(
    address: Seq<u8>,
    padding: Seq<u8>,
    location: NetLocationView,
    rest: Seq<u8>,
    n: int,
)
    requires
        address.len() <= 2048,
        padding.len() <= 4096,
        location_in(address) == Ok::<NetLocationView, Error>(location),
    ensures
        ({
            let d = seq![68u8, 1] + varint::varint_bytes(address.len())->0 + address
                + varint::varint_bytes(padding.len())->0 + padding;
            &&& tcp_request(d + rest) == Ok::<Option<(NetLocationView, int)>, Error>(
                Some((location, d.len() as int)),
            )
            &&& 0 <= n < d.len() ==> tcp_request(d.take(n)) == Ok::<
                Option<(NetLocationView, int)>,
                Error,
            >(None)
        }),
{
    let d = seq![68u8, 1] + varint::varint_bytes(address.len())->0 + address
        + varint::varint_bytes(padding.len())->0 + padding;
    lemma_request_id();
    assert(d =~= tcp_request_bytes(address, padding));
    tcp_request_round_trip(address, padding, location, rest);
    if 0 <= n < d.len() {
        let part = d.take(n);
        let tail = d.skip(n);
        assert(part + tail =~= d);
        assert(d + Seq::<u8>::empty() =~= d);
        tcp_request_round_trip(address, padding, location, Seq::empty());
        if tcp_request(part) != Ok::<Option<(NetLocationView, int)>, Error>(None) {
            tcp_request_prefix(part, tail);
            lemma_request_within(part);
        }
    }
}

/// A request is not longer than the bytes that it was read from.
proof fn lemma_request_within(d: Seq<u8>)
    ensures
        tcp_request(d) matches Ok(Some((_, end))) ==> end <= d.len(),
{
}

/// How the number of a request is written.
proof fn lemma_request_id()
    ensures
        varint::varint_bytes(1025) == Some(seq![68u8, 1]),
{
    varint::varint_is_shortest(1025);
    let b = varint::varint_bytes(1025)->0;
    varint::varint_reads_big_endian(b);
    assert(b =~= seq![68u8, 1]);
}

/// What is refused, and by what: another number in front, an address that is too long, an address
/// that is none, and padding that is too long, each as soon as it is known.
pub proof fn requests_are_refused(d: Seq<u8>, id: nat, a: nat, len: nat, b: nat, pad: nat, c: nat)
    requires
        varint::first_varint(d) == Some((id, a)),
        id == 1025 ==> varint::first_varint(d.skip(a as int)) == Some((len, b)),
        id == 1025 && len <= 2048 ==> d.len() >= a + b + len && varint::first_varint(
            d.skip((a + b + len) as int),
        ) == Some((pad, c)),
    ensures
        id != 1025 ==> tcp_request(d) == Err::<Option<(NetLocationView, int)>, Error>(
            Error::InvalidRequestId,
        ),
        id == 1025 && len > 2048 ==> tcp_request(d) == Err::<Option<(NetLocationView, int)>, Error>(
            Error::InvalidAddressLength,
        ),
        id == 1025 && len <= 2048 ==> {
            let location = location_in(d.subrange((a + b) as int, (a + b + len) as int));
            &&& location matches Err(e) ==> tcp_request(d) == Err::<
                Option<(NetLocationView, int)>,
                Error,
            >(e)
            &&& location is Ok && pad > 4096 ==> tcp_request(d) == Err::<
                Option<(NetLocationView, int)>,
                Error,
            >(Error::InvalidPaddingLength)
            &&& location is Ok && pad <= 4096 ==> tcp_request(d) is Ok
        },
{
}

} // verus!
