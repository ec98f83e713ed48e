//! UDP over QUIC datagrams: what a datagram says, how packets are cut into fragments and put
//! together again, and the sessions that they belong to.

use std::collections::HashMap;
use std::num::NonZeroUsize;

use lru::LruCache;
use rustc_hash::FxBuildHasher;
use vstd::prelude::*;
use vstd::slice::slice_subrange;
use vstd::utf8::*;

use crate::address;
use crate::address::{AddressView, NetLocation, NetLocationView, SocketAddr, SocketAddrView};
use crate::error::Error;
use crate::hysteria2::tcp;
use crate::hysteria2::varint;
use crate::ip;
use crate::lru_cache;
use crate::text;
use crate::util;

verus! {

// ============================= datagrams =============================

/// A part of a packet, as a datagram carries it.
pub struct UdpDatagram {
    pub session_id: u32,
    pub packet_id: u16,
    pub fragment_id: u8,
    pub fragment_count: u8,
    pub remote_location: NetLocation,
    pub payload: Vec<u8>,
}

/// What a [`UdpDatagram`] stands for.
#[verifier::ext_equal]
pub struct UdpDatagramView {
    pub session_id: u32,
    pub packet_id: u16,
    pub fragment_id: u8,
    pub fragment_count: u8,
    pub remote_location: NetLocationView,
    pub payload: Seq<u8>,
}

impl View for UdpDatagram {
    type V = UdpDatagramView;

    open spec fn view(&self) -> UdpDatagramView {
        UdpDatagramView {
            session_id: self.session_id,
            packet_id: self.packet_id,
            fragment_id: self.fragment_id,
            fragment_count: self.fragment_count,
            remote_location: self.remote_location@,
            payload: self.payload@,
        }
    }
}

/// The bytes of a datagram: the session, the packet, the fragment and how many there are, the
/// length of the address and the address, and the payload.
pub open spec fn datagram_bytes(
    session_id: u32,
    packet_id: u16,
    fragment_id: u8,
    fragment_count: u8,
    address: Seq<u8>,
    payload: Seq<u8>,
) -> Seq<u8> {
    util::be32_bytes(session_id) + util::be16_bytes(packet_id) + seq![fragment_id, fragment_count]
        + varint::varint_bytes(address.len())->0 + address + payload
}

/// What a datagram says. One that is cut short, or whose address is empty, too long or no
/// location, says nothing.
pub open spec fn datagram_of(d: Seq<u8>) -> Option<UdpDatagramView> {
    if d.len() < 9 {
        None
    } else {
        match varint::first_varint(d.skip(8)) {
            Some((len, n)) => {
                let from = 8 + n;
                let to = 8 + n + len;
                if len == 0 || len > 2048 || d.len() < to {
                    None
                } else {
                    match tcp::location_in(d.subrange(from as int, to as int)) {
                        Ok(location) => Some(
                            UdpDatagramView {
                                session_id: util::be32(d.take(4)),
                                packet_id: util::be16(d[4], d[5]),
                                fragment_id: d[6],
                                fragment_count: d[7],
                                remote_location: location,
                                payload: d.skip(to as int),
                            },
                        ),
                        Err(_) => None,
                    }
                }
            },
            None => None,
        }
    }
}

/// Reads a datagram. What is no datagram is to be ignored.
pub fn parse_udp_datagram(data: &[u8]) -> (r: Option<UdpDatagram>)
    ensures
        match r {
            Some(datagram) => datagram_of(data@) == Some(datagram@),
            None => datagram_of(data@) is None,
        },
{
    let total: usize = data.len();
    if total < 9 {
        return None;
    }
    let session_id: u32 = util::get_be32(data, 0);
    let packet_id: u16 = util::get_be16(data, 4);
    let fragment_id: u8 = data[6];
    let fragment_count: u8 = data[7];
    let rest = slice_subrange(data, 8, total);
    assert(rest@ =~= data@.skip(8));
    let (address_len, n): (u64, usize) = match varint::decode_varint(rest) {
        Some(v) => v,
        None => {
            return None;
        },
    };
    if address_len == 0 {
        return None;
    }
    if address_len > 2048 {
        return None;
    }
    let from: usize = 8 + n;
    let to: usize = from + address_len as usize;
    if total < to {
        return None;
    }
    let remote_location = match tcp::read_location(slice_subrange(data, from, to)) {
        Ok(location) => location,
        Err(_) => {
            return None;
        },
    };
    let payload = util::copy_range(data, to, total);
    assert(data@.take(4) =~= data@.subrange(0, 4));
    assert(payload@ =~= data@.skip(to as int));
    Some(
        UdpDatagram { session_id, packet_id, fragment_id, fragment_count, remote_location, payload },
    )
}

/// Reading a written datagram gives it back.
pub proof fn datagram_round_trip(
    session_id: u32,
    packet_id: u16,
    fragment_id: u8,
    fragment_count: u8,
    address: Seq<u8>,
    payload: Seq<u8>,
)
    requires
        0 < address.len() <= 2048,
        tcp::location_in(address) is Ok,
    ensures
        datagram_of(
            datagram_bytes(session_id, packet_id, fragment_id, fragment_count, address, payload),
        ) == Some(
            UdpDatagramView {
                session_id,
                packet_id,
                fragment_id,
                fragment_count,
                remote_location: tcp::location_in(address)->Ok_0,
                payload,
            },
        ),
{
    let d = datagram_bytes(session_id, packet_id, fragment_id, fragment_count, address, payload);
    let v = varint::varint_bytes(address.len())->0;
    varint::varint_round_trip(address.len(), address + payload);
    assert(d.skip(8) =~= v + (address + payload));
    let from = 8 + v.len() as int;
    let to = from + address.len();
    assert(d.subrange(from, to) =~= address);
    assert(d.skip(to) =~= payload);
    assert(d.take(4) =~= util::be32_bytes(session_id));
    util::be32_round_trip(session_id);
    util::be16_round_trip(packet_id);
    assert(d[4] == util::be16_bytes(packet_id)[0]);
    assert(d[5] == util::be16_bytes(packet_id)[1]);
}

// ============================= fragments =============================

/// Maximum number of fragmented packets to track per session.
pub const MAX_FRAGMENT_CACHE_SIZE: usize = 256;

/// A packet of which fragments have arrived.
pub struct FragmentedPacket {
    fragment_count: u8,
    fragment_received: u8,
    received: Vec<Option<Vec<u8>>>,
    remote_location: NetLocation,
}

/// What a [`FragmentedPacket`] stands for: how many fragments there are, how many have
/// arrived, which ones, and where the packet goes.
#[verifier::ext_equal]
pub struct PacketView {
    pub fragment_count: u8,
    pub fragment_received: u8,
    pub received: Seq<Option<Seq<u8>>>,
    pub remote_location: NetLocationView,
}

/// The contents of a fragment that may be missing.
pub open spec fn part_view(part: Option<Vec<u8>>) -> Option<Seq<u8>> {
    match part {
        Some(bytes) => Some(bytes@),
        None => None,
    }
}

impl View for FragmentedPacket {
    type V = PacketView;

    closed spec fn view(&self) -> PacketView {
        PacketView {
            fragment_count: self.fragment_count,
            fragment_received: self.fragment_received,
            received: self.received@.map_values(|part: Option<Vec<u8>>| part_view(part)),
            remote_location: self.remote_location@,
        }
    }
}

/// How many fragments are there.
pub open spec fn count_parts(received: Seq<Option<Seq<u8>>>) -> nat
    decreases received.len(),
{
    if received.len() == 0 {
        0
    } else {
        count_parts(received.drop_last()) + if received.last() is Some {
            1nat
        } else {
            0
        }
    }
}

/// The fragments one behind the other.
pub open spec fn join_parts(received: Seq<Option<Seq<u8>>>) -> Seq<u8>
    decreases received.len(),
{
    if received.len() == 0 {
        Seq::empty()
    } else {
        join_parts(received.drop_last()) + received.last()->0
    }
}

/// Whether every fragment is there.
pub open spec fn all_parts(received: Seq<Option<Seq<u8>>>) -> bool {
    forall|i: int| 0 <= i < received.len() ==> (#[trigger] received[i]) is Some
}

impl PacketView {
    /// There is a place for each fragment, and those that have arrived are counted.
    pub open spec fn wf(self) -> bool {
        &&& self.received.len() == self.fragment_count
        &&& count_parts(self.received) == self.fragment_received
    }
}

/// A packet of which nothing has arrived.
pub open spec fn fresh_packet(fragment_count: u8, remote_location: NetLocationView) -> PacketView {
    PacketView {
        fragment_count,
        fragment_received: 0,
        received: Seq::new(fragment_count as nat, |i: int| None),
        remote_location,
    }
}

/// A packet with one more fragment.
pub open spec fn with_part(p: PacketView, fragment_id: u8, payload: Seq<u8>) -> PacketView {
    PacketView {
        fragment_received: (p.fragment_received + 1) as u8,
        received: p.received.update(fragment_id as int, Some(payload)),
        ..p
    }
}

/// What comes of a fragment.
#[verifier::ext_equal]
pub enum AssemblyView {
    /// It was dropped.
    Dropped,
    /// Others are still missing.
    Pending,
    /// It completed a packet: its payload, and where it goes.
    Complete(Seq<u8>, NetLocationView),
}

/// What comes of a datagram, given the packets of which fragments have arrived, and what
/// becomes of those. A packet of one fragment is complete as it is. A fragment that claims
/// another number of fragments than the others of its packet, or that has arrived before,
/// makes the whole packet be dropped. The location is that of the first fragment.
pub open spec fn assemble(entries: Seq<(u16, PacketView)>, d: UdpDatagramView) -> (
    Seq<(u16, PacketView)>,
    AssemblyView,
) {
    let known = lru_cache::lru_get(entries, d.packet_id);
    let rest = lru_cache::lru_without(entries, d.packet_id);
    let p = match known {
        Some(p) => p,
        None => fresh_packet(d.fragment_count, d.remote_location),
    };
    let q = with_part(p, d.fragment_id, d.payload);
    if d.fragment_count == 0 {
        (entries, AssemblyView::Dropped)
    } else if d.fragment_count == 1 {
        (entries, AssemblyView::Complete(d.payload, d.remote_location))
    } else if p.fragment_count != d.fragment_count {
        (rest, AssemblyView::Dropped)
    } else if d.fragment_id >= d.fragment_count {
        (
            if known is Some {
                lru_cache::lru_put(rest, MAX_FRAGMENT_CACHE_SIZE as nat, d.packet_id, p)
            } else {
                entries
            },
            AssemblyView::Dropped,
        )
    } else if p.received[d.fragment_id as int] is Some {
        (rest, AssemblyView::Dropped)
    } else if all_parts(q.received) {
        (rest, AssemblyView::Complete(join_parts(q.received), q.remote_location))
    } else {
        (
            lru_cache::lru_put(rest, MAX_FRAGMENT_CACHE_SIZE as nat, d.packet_id, q),
            AssemblyView::Pending,
        )
    }
}

/// There are never more fragments than places, and all of them are there where the numbers
/// agree.
proof fn lemma_count_parts(received: Seq<Option<Seq<u8>>>)
    ensures
        count_parts(received) <= received.len(),
        (count_parts(received) == received.len()) == all_parts(received),
    decreases received.len(),
{
    if received.len() > 0 {
        let front = received.drop_last();
        lemma_count_parts(front);
        if all_parts(received) {
            assert forall|i: int| 0 <= i < front.len() implies (#[trigger] front[i]) is Some by {
                assert(received[i] is Some);
            }
        }
        if count_parts(received) == received.len() {
            assert forall|i: int| 0 <= i < received.len() implies (#[trigger] received[i])
                is Some by {
                if i < front.len() {
                    assert(front[i] is Some);
                }
            }
        }
    }
}

/// A fragment more is counted once more.
proof fn lemma_count_update(received: Seq<Option<Seq<u8>>>, i: int, payload: Seq<u8>)
    requires
        0 <= i < received.len(),
        received[i] is None,
    ensures
        count_parts(received.update(i, Some(payload))) == count_parts(received) + 1,
    decreases received.len(),
{
    let updated = received.update(i, Some(payload));
    if i == received.len() - 1 {
        assert(updated.drop_last() =~= received.drop_last());
    } else {
        assert(updated.drop_last() =~= received.drop_last().update(i, Some(payload)));
        lemma_count_update(received.drop_last(), i, payload);
    }
}

/// Nothing is there of a fresh packet.
proof fn lemma_fresh_count(n: nat)
    ensures
        count_parts(Seq::new(n, |i: int| None)) == 0,
    decreases n,
{
    if n > 0 {
        lemma_fresh_count((n - 1) as nat);
        assert(Seq::new(n, |i: int| None::<Seq<u8>>).drop_last() =~= Seq::new(
            (n - 1) as nat,
            |i: int| None::<Seq<u8>>,
        ));
    }
}

impl FragmentedPacket {
    fn new(fragment_count: u8, remote_location: NetLocation) -> (r: Self)
        ensures
            r@ == fresh_packet(fragment_count, remote_location@),
            r@.wf(),
    {
        let mut received: Vec<Option<Vec<u8>>> = Vec::new();
        let mut i: u8 = 0;
        while i < fragment_count
            invariant
                i <= fragment_count,
                received@.len() == i,
                forall|j: int| 0 <= j < i ==> (#[trigger] received@[j]) is None,
            decreases fragment_count - i,
        {
            received.push(None);
            i = i + 1;
        }
        let r = FragmentedPacket {
            fragment_count,
            fragment_received: 0,
            received,
            remote_location,
        };
        proof {
            let fresh = fresh_packet(fragment_count, remote_location@);
            assert forall|j: int| 0 <= j < fragment_count implies r@.received[j]
                == fresh.received[j] by {
                assert(received@[j] is None);
            }
            assert(r@.received =~= fresh.received);
            lemma_fresh_count(fragment_count as nat);
        }
        r
    }

    /// Whether a fragment has arrived.
    fn has_part(&self, fragment_id: u8) -> (r: bool)
        requires
            self@.wf(),
            fragment_id < self@.fragment_count,
        ensures
            r == (self@.received[fragment_id as int] is Some),
    {
        self.received[fragment_id as usize].is_some()
    }

    fn add_part(&mut self, fragment_id: u8, payload: Vec<u8>)
        requires
            old(self)@.wf(),
            fragment_id < old(self)@.fragment_count,
            old(self)@.received[fragment_id as int] is None,
        ensures
            final(self)@ == with_part(old(self)@, fragment_id, payload@),
            final(self)@.wf(),
    {
        proof {
            lemma_count_parts(self@.received);
            lemma_count_update(self@.received, fragment_id as int, payload@);
        }
        self.received[fragment_id as usize] = Some(payload);
        self.fragment_received = self.fragment_received + 1;
        assert(self@.received =~= old(self)@.received.update(fragment_id as int, Some(payload@)));
    }

    /// The payload of a packet that is all there.
    fn payload(&self) -> (r: Vec<u8>)
        requires
            self@.wf(),
            all_parts(self@.received),
        ensures
            r@ == join_parts(self@.received),
    {
        let mut complete_payload: Vec<u8> = Vec::new();
        let n: usize = self.received.len();
        let mut i: usize = 0;
        while i < n
            invariant
                i <= n,
                n == self.received@.len(),
                n == self@.received.len(),
                all_parts(self@.received),
                complete_payload@ == join_parts(self@.received.take(i as int)),
            decreases n - i,
        {
            assert(self@.received[i as int] is Some);
            match &self.received[i] {
                Some(part) => {
                    util::push_bytes(&mut complete_payload, part.as_slice());
                    assert(self@.received.take(i + 1).drop_last() =~= self@.received.take(i as int));
                },
                None => {},
            }
            i = i + 1;
        }
        assert(self@.received.take(n as int) =~= self@.received);
        complete_payload
    }
}

/// The packets in a cache, the one used last first.
pub uninterp spec fn fragment_entries(cache: LruCache<u16, FragmentedPacket>) -> Seq<
    (u16, PacketView),
>;

/// How many packets a cache takes.
pub uninterp spec fn fragment_capacity(cache: LruCache<u16, FragmentedPacket>) -> nat;

/// Makes an empty cache.
///
/// Calls `lru::LruCache::new`: the cache holds nothing, and will hold up to `capacity`
/// entries.
#[verifier::external_body]
fn new_fragments(capacity: usize) -> (r: LruCache<u16, FragmentedPacket>)
    requires
        capacity > 0,
    ensures
        fragment_entries(r) == Seq::<(u16, PacketView)>::empty(),
        fragment_capacity(r) == capacity,
{
    LruCache::new(NonZeroUsize::new(capacity).unwrap())
}

/// Puts a packet into a cache.
///
/// Calls `lru::LruCache::put`: the entry comes first in place of any other with its key, and
/// a cache that is full loses the entry that was used longest ago.
#[verifier::external_body]
fn put_fragments(cache: &mut LruCache<u16, FragmentedPacket>, key: u16, value: FragmentedPacket)
    ensures
        fragment_entries(*final(cache)) == lru_cache::lru_put(
            fragment_entries(*old(cache)),
            fragment_capacity(*old(cache)),
            key,
            value@,
        ),
        fragment_capacity(*final(cache)) == fragment_capacity(*old(cache)),
{
    cache.put(key, value);
}

/// Takes a packet out of a cache.
///
/// Calls `lru::LruCache::pop`: the entry with the key leaves the cache and is handed over;
/// the others stay as they are.
#[verifier::external_body]
fn pop_fragments(cache: &mut LruCache<u16, FragmentedPacket>, key: u16) -> (r: Option<
    FragmentedPacket,
>)
    ensures
        match r {
            Some(p) => lru_cache::lru_get(fragment_entries(*old(cache)), key) == Some(p@),
            None => lru_cache::lru_get(fragment_entries(*old(cache)), key) is None,
        },
        fragment_entries(*final(cache)) == lru_cache::lru_without(
            fragment_entries(*old(cache)),
            key,
        ),
        fragment_capacity(*final(cache)) == fragment_capacity(*old(cache)),
{
    cache.pop(&key)
}

/// What comes of a fragment.
pub enum Assembly {
    Dropped,
    Pending,
    Complete(Vec<u8>, NetLocation),
}

impl View for Assembly {
    type V = AssemblyView;

    open spec fn view(&self) -> AssemblyView {
        match self {
            Assembly::Dropped => AssemblyView::Dropped,
            Assembly::Pending => AssemblyView::Pending,
            Assembly::Complete(payload, location) => AssemblyView::Complete(payload@, location@),
        }
    }
}

/// The packets of a session of which fragments have arrived.
pub struct Fragments {
    cache: LruCache<u16, FragmentedPacket>,
}

impl View for Fragments {
    type V = Seq<(u16, PacketView)>;

    closed spec fn view(&self) -> Seq<(u16, PacketView)> {
        fragment_entries(self.cache)
    }
}

/// All packets are well-formed.
pub open spec fn packets_wf(entries: Seq<(u16, PacketView)>) -> bool {
    forall|i: int| 0 <= i < entries.len() ==> (#[trigger] entries[i]).1.wf()
}

/// Well-formed packets stay well-formed whatever arrives.
pub proof fn assemble_keeps_packets(entries: Seq<(u16, PacketView)>, d: UdpDatagramView)
    requires
        packets_wf(entries),
    ensures
        packets_wf(assemble(entries, d).0),
{
    let is_wf = |p: PacketView| p.wf();
    let rest = lru_cache::lru_without(entries, d.packet_id);
    let known = lru_cache::lru_get(entries, d.packet_id);
    lru_cache::lemma_lru_without_all(entries, d.packet_id, is_wf);
    lemma_fresh_count(d.fragment_count as nat);
    let p = match known {
        Some(p) => p,
        None => fresh_packet(d.fragment_count, d.remote_location),
    };
    let q = with_part(p, d.fragment_id, d.payload);
    assert(p.wf());
    if p.fragment_count == d.fragment_count && d.fragment_id < d.fragment_count {
        if p.received[d.fragment_id as int] is None {
            lemma_count_parts(p.received);
            lemma_count_update(p.received, d.fragment_id as int, d.payload);
            lemma_count_parts(q.received);
            assert(q.wf());
            lru_cache::lemma_lru_put_all(
                rest,
                MAX_FRAGMENT_CACHE_SIZE as nat,
                d.packet_id,
                q,
                is_wf,
            );
        }
    }
    lru_cache::lemma_lru_put_all(rest, MAX_FRAGMENT_CACHE_SIZE as nat, d.packet_id, p, is_wf);
}

/// However many packets arrive in fragments, no more than 256 are kept, each under its own
/// number.
pub proof fn assemble_keeps_limit(entries: Seq<(u16, PacketView)>, d: UdpDatagramView)
    requires
        lru_cache::lru_distinct(entries),
        entries.len() <= 256,
    ensures
        lru_cache::lru_distinct(assemble(entries, d).0),
        assemble(entries, d).0.len() <= 256,
{
    let rest = lru_cache::lru_without(entries, d.packet_id);
    let p = match lru_cache::lru_get(entries, d.packet_id) {
        Some(p) => p,
        None => fresh_packet(d.fragment_count, d.remote_location),
    };
    lru_cache::lru_without_forgets(entries, d.packet_id, d.packet_id);
    lru_cache::lru_put_keeps_limit(rest, 256, d.packet_id, p);
    lru_cache::lru_put_keeps_limit(rest, 256, d.packet_id, with_part(p, d.fragment_id, d.payload));
}

impl Fragments {
    /// The cache has its size and keeps to it, and its packets are well-formed and distinct.
    pub closed spec fn wf(self) -> bool {
        &&& fragment_capacity(self.cache) == MAX_FRAGMENT_CACHE_SIZE
        &&& packets_wf(self@)
        &&& lru_cache::lru_distinct(self@)
        &&& self@.len() <= MAX_FRAGMENT_CACHE_SIZE
    }

    /// Nothing has arrived yet.
    pub fn new() -> (r: Self)
        ensures
            r.wf(),
            r@ == Seq::<(u16, PacketView)>::empty(),
    {
        Fragments { cache: new_fragments(MAX_FRAGMENT_CACHE_SIZE) }
    }

    /// Takes in what a datagram carries.
    pub fn receive(&mut self, datagram: UdpDatagram) -> (r: Assembly)
        requires
            old(self).wf(),
        ensures
            final(self).wf(),
            final(self)@ == assemble(old(self)@, datagram@).0,
            r@ == assemble(old(self)@, datagram@).1,
    {
        proof {
            assemble_keeps_packets(self@, datagram@);
            assemble_keeps_limit(self@, datagram@);
        }
        let fragment_count: u8 = datagram.fragment_count;
        let fragment_id: u8 = datagram.fragment_id;
        let packet_id: u16 = datagram.packet_id;
        if fragment_count == 0 {
            return Assembly::Dropped;
        }
        if fragment_count == 1 {
            return Assembly::Complete(datagram.payload, datagram.remote_location);
        }
        proof {
            lru_cache::lemma_lru_without_all(self@, packet_id, |p: PacketView| p.wf());
        }
        let known = pop_fragments(&mut self.cache, packet_id);
        let is_new: bool = known.is_none();
        let mut entry = match known {
            Some(entry) => entry,
            None => FragmentedPacket::new(fragment_count, datagram.remote_location),
        };
        if entry.fragment_count != fragment_count {
            return Assembly::Dropped;
        }
        if fragment_id >= fragment_count {
            if !is_new {
                put_fragments(&mut self.cache, packet_id, entry);
            } else {
                proof {
                    lru_cache::lemma_lru_place(old(self)@, packet_id);
                }
            }
            return Assembly::Dropped;
        }
        if entry.has_part(fragment_id) {
            return Assembly::Dropped;
        }
        entry.add_part(fragment_id, datagram.payload);
        proof {
            lemma_count_parts(entry@.received);
        }
        if entry.fragment_received != entry.fragment_count {
            put_fragments(&mut self.cache, packet_id, entry);
            return Assembly::Pending;
        }
        let complete_payload = entry.payload();
        Assembly::Complete(complete_payload, entry.remote_location)
    }
}

/// The datagrams of a packet that arrives in fragments, in the order in which they arrive.
pub open spec fn arrivals(
    d: UdpDatagramView,
    parts: Seq<Seq<u8>>,
    order: Seq<u8>,
) -> Seq<UdpDatagramView> {
    Seq::new(
        order.len(),
        |k: int|
            UdpDatagramView {
                fragment_id: order[k],
                fragment_count: parts.len() as u8,
                payload: parts[order[k] as int],
                ..d
            },
    )
}

/// The packets of which fragments have arrived, after some datagrams.
pub open spec fn after_arrivals(
    entries: Seq<(u16, PacketView)>,
    datagrams: Seq<UdpDatagramView>,
) -> Seq<(u16, PacketView)>
    decreases datagrams.len(),
{
    if datagrams.len() == 0 {
        entries
    } else {
        assemble(after_arrivals(entries, datagrams.drop_last()), datagrams.last()).0
    }
}

/// What is there of a packet once some of its fragments have arrived.
spec fn partial(
    parts: Seq<Seq<u8>>,
    order: Seq<u8>,
    location: NetLocationView,
    p: PacketView,
) -> bool {
    &&& p.wf()
    &&& p.fragment_count == parts.len()
    &&& p.fragment_received == order.len()
    &&& p.remote_location == location
    &&& forall|i: int|
        0 <= i < parts.len() ==> (#[trigger] p.received[i] is Some <==> order.contains(i as u8))
    &&& forall|i: int|
        0 <= i < parts.len() && (#[trigger] p.received[i]) is Some ==> p.received[i] == Some(parts[i])
}

proof fn lemma_partial_step(
    parts: Seq<Seq<u8>>,
    order: Seq<u8>,
    location: NetLocationView,
    p: PacketView,
    id: u8,
)
    requires
        partial(parts, order, location, p),
        2 <= parts.len() <= 255,
        id < parts.len(),
        !order.contains(id),
    ensures
        p.received[id as int] is None,
        partial(parts, order.push(id), location, with_part(p, id, parts[id as int])),
{
    let q = with_part(p, id, parts[id as int]);
    assert(p.received[id as int] is None) by {
        assert(id as int as u8 == id);
    }
    lemma_count_update(p.received, id as int, parts[id as int]);
    lemma_count_parts(q.received);
    assert forall|i: int| 0 <= i < parts.len() implies (#[trigger] q.received[i] is Some
        <==> order.push(id).contains(i as u8)) by {
        if i == id {
            assert(order.push(id).last() == id);
        } else {
            assert(p.received[i] == q.received[i]);
            if order.contains(i as u8) {
                let k = choose|k: int| 0 <= k < order.len() && order[k] == i as u8;
                assert(order.push(id)[k] == i as u8);
            }
            if order.push(id).contains(i as u8) {
                let k = choose|k: int|
                    0 <= k < order.push(id).len() && order.push(id)[k] == i as u8;
                assert(k < order.len());
                assert(order[k] == i as u8);
            }
        }
    }
    assert forall|i: int| 0 <= i < parts.len() && (#[trigger] q.received[i]) is Some implies
        q.received[i] == Some(parts[i]) by {
        if i != id {
            assert(p.received[i] == q.received[i]);
        }
    }
}

proof fn lemma_join_parts(parts: Seq<Seq<u8>>, received: Seq<Option<Seq<u8>>>)
    requires
        parts.len() == received.len(),
        forall|i: int| 0 <= i < parts.len() ==> #[trigger] received[i] == Some(parts[i]),
    ensures
        join_parts(received) == util::join(parts),
    decreases parts.len(),
{
    if parts.len() > 0 {
        assert forall|i: int| 0 <= i < parts.drop_last().len() implies
            #[trigger] received.drop_last()[i] == Some(parts.drop_last()[i]) by {
            assert(received[i] == Some(parts[i]));
        }
        lemma_join_parts(parts.drop_last(), received.drop_last());
        assert(received[received.len() - 1] == Some(parts[parts.len() - 1]));
    }
}

/// The state of a packet after the first `k` of its fragments.
proof fn lemma_after_some(
    entries: Seq<(u16, PacketView)>,
    d: UdpDatagramView,
    parts: Seq<Seq<u8>>,
    order: Seq<u8>,
    k: nat,
)
    requires
        2 <= parts.len() <= 255,
        order.len() == parts.len(),
        order.no_duplicates(),
        forall|i: int| 0 <= i < order.len() ==> #[trigger] order[i] < parts.len(),
        lru_cache::lru_get(entries, d.packet_id) is None,
        k < parts.len(),
    ensures
        ({
            let now = after_arrivals(entries, arrivals(d, parts, order).take(k as int));
            match lru_cache::lru_get(now, d.packet_id) {
                Some(p) => k > 0 && partial(parts, order.take(k as int), d.remote_location, p),
                None => k == 0,
            }
        }),
        k > 0 ==> assemble(
            after_arrivals(entries, arrivals(d, parts, order).take(k - 1)),
            arrivals(d, parts, order)[k - 1],
        ).1 == AssemblyView::Pending,
    decreases k,
{
    let all = arrivals(d, parts, order);
    if k == 0 {
        assert(all.take(0) =~= Seq::<UdpDatagramView>::empty());
    } else {
        let j = (k - 1) as nat;
        lemma_after_some(entries, d, parts, order, j);
        let before = after_arrivals(entries, all.take(j as int));
        assert(all.take(k as int).drop_last() =~= all.take(j as int));
        assert(all.take(k as int).last() == all[j as int]);
        let e = all[j as int];
        let known = lru_cache::lru_get(before, d.packet_id);
        let p = match known {
            Some(p) => p,
            None => fresh_packet(parts.len() as u8, d.remote_location),
        };
        let id = order[j as int];
        assert(!order.take(j as int).contains(id)) by {
            if order.take(j as int).contains(id) {
                let m = choose|m: int|
                    0 <= m < order.take(j as int).len() && order.take(j as int)[m] == id;
                assert(order[m] == order[j as int]);
            }
        }
        if known is None {
            lemma_fresh_count(parts.len());
            assert(order.take(0) =~= Seq::<u8>::empty());
            assert(partial(parts, order.take(0), d.remote_location, p));
        }
        lemma_partial_step(parts, order.take(j as int), d.remote_location, p, id);
        assert(order.take(j as int).push(id) =~= order.take(k as int));
        let q = with_part(p, id, parts[id as int]);
        lemma_count_parts(q.received);
        lru_cache::lemma_lru_put_get(
            lru_cache::lru_without(before, d.packet_id),
            MAX_FRAGMENT_CACHE_SIZE as nat,
            d.packet_id,
            q,
        );
    }
}

/// The fragments of a packet, each once and in any order, give its payload with the last of
/// them and nothing before.
pub proof fn fragments_assemble(
    entries: Seq<(u16, PacketView)>,
    d: UdpDatagramView,
    parts: Seq<Seq<u8>>,
    order: Seq<u8>,
)
    requires
        2 <= parts.len() <= 255,
        order.len() == parts.len(),
        order.no_duplicates(),
        forall|i: int| 0 <= i < order.len() ==> #[trigger] order[i] < parts.len(),
        lru_cache::lru_get(entries, d.packet_id) is None,
    ensures
        forall|k: int|
            0 <= k < parts.len() ==> (#[trigger] assemble(
                after_arrivals(entries, arrivals(d, parts, order).take(k)),
                arrivals(d, parts, order)[k],
            )).1 == (if k < parts.len() - 1 {
                AssemblyView::Pending
            } else {
                AssemblyView::Complete(util::join(parts), d.remote_location)
            }),
{
    let all = arrivals(d, parts, order);
    let n = parts.len();
    assert forall|k: int| 0 <= k < n implies (#[trigger] assemble(
        after_arrivals(entries, all.take(k)),
        all[k],
    )).1 == (if k < n - 1 {
        AssemblyView::Pending
    } else {
        AssemblyView::Complete(util::join(parts), d.remote_location)
    }) by {
        if k < n - 1 {
            lemma_after_some(entries, d, parts, order, (k + 1) as nat);
        } else {
            lemma_after_some(entries, d, parts, order, k as nat);
            let before = after_arrivals(entries, all.take(k));
            let p = lru_cache::lru_get(before, d.packet_id)->0;
            let id = order[k];
            assert(!order.take(k).contains(id)) by {
                if order.take(k).contains(id) {
                    let m = choose|m: int| 0 <= m < order.take(k).len() && order.take(k)[m] == id;
                    assert(order[m] == order[k]);
                }
            }
            lemma_partial_step(parts, order.take(k), d.remote_location, p, id);
            let q = with_part(p, id, parts[id as int]);
            lemma_count_parts(q.received);
            assert forall|i: int| 0 <= i < n implies #[trigger] q.received[i] == Some(parts[i]) by {
                assert(q.received[i] is Some);
            }
            lemma_join_parts(parts, q.received);
        }
    }
}

/// A packet that is whole, or that is none, touches no packet of which fragments have arrived.
pub proof fn whole_packets_pass(entries: Seq<(u16, PacketView)>, d: UdpDatagramView)
    ensures
        d.fragment_count == 1 ==> assemble(entries, d) == (
            entries,
            AssemblyView::Complete(d.payload, d.remote_location),
        ),
        d.fragment_count == 0 ==> assemble(entries, d) == (entries, AssemblyView::Dropped),
{
}

/// A datagram changes nothing of any other packet of which fragments have arrived, as long as
/// there is room for its own.
pub proof fn packets_do_not_interfere(
    entries: Seq<(u16, PacketView)>,
    d: UdpDatagramView,
    other: u16,
)
    requires
        lru_cache::lru_distinct(entries),
        entries.len() <= 256,
        entries.len() < 256 || lru_cache::lru_get(entries, d.packet_id) is Some,
        other != d.packet_id,
    ensures
        lru_cache::lru_get(assemble(entries, d).0, other) == lru_cache::lru_get(entries, other),
        assemble(entries, d).0.len() <= entries.len() + 1,
{
    let rest = lru_cache::lru_without(entries, d.packet_id);
    let p = match lru_cache::lru_get(entries, d.packet_id) {
        Some(p) => p,
        None => fresh_packet(d.fragment_count, d.remote_location),
    };
    let q = with_part(p, d.fragment_id, d.payload);
    lru_cache::lru_without_forgets(entries, d.packet_id, other);
    lru_cache::lru_without_forgets(rest, d.packet_id, other);
    lru_cache::lru_put_keeps_others(rest, 256, d.packet_id, p, other);
    lru_cache::lru_put_keeps_others(rest, 256, d.packet_id, q, other);
}

/// Where there is no room for a new packet, the one that was used longest ago gives way, and no
/// other.
pub proof fn oldest_packet_gives_way(entries: Seq<(u16, PacketView)>, d: UdpDatagramView)
    requires
        lru_cache::lru_distinct(entries),
        entries.len() == 256,
        lru_cache::lru_get(entries, d.packet_id) is None,
        2 <= d.fragment_count,
        d.fragment_id < d.fragment_count,
    ensures
        assemble(entries, d).1 == AssemblyView::Pending,
        assemble(entries, d).0.len() == 256,
        assemble(entries, d).0[0].0 == d.packet_id,
        assemble(entries, d).0.skip(1) == entries.drop_last(),
{
    let rest = lru_cache::lru_without(entries, d.packet_id);
    let p = fresh_packet(d.fragment_count, d.remote_location);
    let q = with_part(p, d.fragment_id, d.payload);
    lru_cache::lemma_lru_place(entries, d.packet_id);
    lru_cache::lemma_lru_place(rest, d.packet_id);
    lru_cache::lru_put_comes_first(rest, 256, d.packet_id, q);
    lemma_fresh_count(d.fragment_count as nat);
    lemma_count_update(p.received, d.fragment_id as int, d.payload);
    lemma_count_parts(q.received);
}

/// What comes of a datagram, and what is then known of its packet, depends on nothing but what
/// was known of that packet.
pub proof fn packets_stand_alone(
    entries: Seq<(u16, PacketView)>,
    others: Seq<(u16, PacketView)>,
    d: UdpDatagramView,
)
    requires
        lru_cache::lru_distinct(entries),
        lru_cache::lru_distinct(others),
        lru_cache::lru_get(entries, d.packet_id) == lru_cache::lru_get(others, d.packet_id),
    ensures
        assemble(entries, d).1 == assemble(others, d).1,
        lru_cache::lru_get(assemble(entries, d).0, d.packet_id) == lru_cache::lru_get(
            assemble(others, d).0,
            d.packet_id,
        ),
{
    let k = d.packet_id;
    let a = lru_cache::lru_without(entries, k);
    let b = lru_cache::lru_without(others, k);
    let p = match lru_cache::lru_get(entries, k) {
        Some(p) => p,
        None => fresh_packet(d.fragment_count, d.remote_location),
    };
    let q = with_part(p, d.fragment_id, d.payload);
    lru_cache::lru_without_forgets(entries, k, k);
    lru_cache::lru_without_forgets(others, k, k);
    lru_cache::lemma_lru_put_get(a, 256, k, p);
    lru_cache::lemma_lru_put_get(b, 256, k, p);
    lru_cache::lemma_lru_put_get(a, 256, k, q);
    lru_cache::lemma_lru_put_get(b, 256, k, q);
}

/// The datagrams of one packet among others.
pub open spec fn own_datagrams(datagrams: Seq<UdpDatagramView>, packet_id: u16) -> Seq<UdpDatagramView>
    decreases datagrams.len(),
{
    if datagrams.len() == 0 {
        Seq::empty()
    } else if datagrams.last().packet_id == packet_id {
        own_datagrams(datagrams.drop_last(), packet_id).push(datagrams.last())
    } else {
        own_datagrams(datagrams.drop_last(), packet_id)
    }
}

/// Datagrams keep the packets distinct, and each adds at most one.
proof fn lemma_arrivals_keep(entries: Seq<(u16, PacketView)>, datagrams: Seq<UdpDatagramView>)
    requires
        lru_cache::lru_distinct(entries),
        entries.len() + datagrams.len() <= 256,
    ensures
        lru_cache::lru_distinct(after_arrivals(entries, datagrams)),
        after_arrivals(entries, datagrams).len() <= entries.len() + datagrams.len(),
    decreases datagrams.len(),
{
    if datagrams.len() > 0 {
        lemma_arrivals_keep(entries, datagrams.drop_last());
        let before = after_arrivals(entries, datagrams.drop_last());
        let d = datagrams.last();
        assemble_keeps_limit(before, d);
        let other: u16 = if d.packet_id == 0 {
            1
        } else {
            0
        };
        packets_do_not_interfere(before, d, other);
    }
}

/// A packet has no more datagrams of its own than there are.
proof fn lemma_own_datagrams(datagrams: Seq<UdpDatagramView>, packet_id: u16)
    ensures
        own_datagrams(datagrams, packet_id).len() <= datagrams.len(),
    decreases datagrams.len(),
{
    if datagrams.len() > 0 {
        lemma_own_datagrams(datagrams.drop_last(), packet_id);
    }
}

/// However the datagrams of several packets are mixed, with whole packets between them, what
/// comes of a packet is what would come of its own datagrams alone.
pub proof fn packets_can_be_interleaved(
    entries: Seq<(u16, PacketView)>,
    datagrams: Seq<UdpDatagramView>,
    d: UdpDatagramView,
)
    requires
        lru_cache::lru_distinct(entries),
        entries.len() + datagrams.len() <= 256,
    ensures
        lru_cache::lru_get(after_arrivals(entries, datagrams), d.packet_id) == lru_cache::lru_get(
            after_arrivals(entries, own_datagrams(datagrams, d.packet_id)),
            d.packet_id,
        ),
        assemble(after_arrivals(entries, datagrams), d).1 == assemble(
            after_arrivals(entries, own_datagrams(datagrams, d.packet_id)),
            d,
        ).1,
    decreases datagrams.len(),
{
    let k = d.packet_id;
    let own = own_datagrams(datagrams, k);
    lemma_own_datagrams(datagrams, k);
    lemma_arrivals_keep(entries, datagrams);
    lemma_arrivals_keep(entries, own);
    if datagrams.len() > 0 {
        let front = datagrams.drop_last();
        let own_front = own_datagrams(front, k);
        let last = datagrams.last();
        packets_can_be_interleaved(entries, front, d);
        lemma_arrivals_keep(entries, front);
        lemma_own_datagrams(front, k);
        lemma_arrivals_keep(entries, own_front);
        if last.packet_id == k {
            assert(own.drop_last() =~= own_front);
            packets_stand_alone(
                after_arrivals(entries, front),
                after_arrivals(entries, own_front),
                last,
            );
        } else {
            packets_do_not_interfere(after_arrivals(entries, front), last, k);
        }
    }
    packets_stand_alone(after_arrivals(entries, datagrams), after_arrivals(entries, own), d);
}

/// A fragment that has arrived before, or that claims another number of fragments, makes its
/// packet be forgotten, and nothing comes out.
pub proof fn contradictions_drop_the_packet(
    entries: Seq<(u16, PacketView)>,
    d: UdpDatagramView,
    p: PacketView,
)
    requires
        lru_cache::lru_distinct(entries),
        lru_cache::lru_get(entries, d.packet_id) == Some(p),
        p.wf(),
        2 <= d.fragment_count,
        p.fragment_count != d.fragment_count || d.fragment_id < d.fragment_count
            && p.received[d.fragment_id as int] is Some,
    ensures
        assemble(entries, d).1 == AssemblyView::Dropped,
        lru_cache::lru_get(assemble(entries, d).0, d.packet_id) is None,
{
    lru_cache::lru_without_forgets(entries, d.packet_id, d.packet_id);
}

/// A fragment that counts beyond the number of fragments changes nothing.
pub proof fn impossible_fragments_are_ignored(
    entries: Seq<(u16, PacketView)>,
    d: UdpDatagramView,
    k: u16,
)
    requires
        lru_cache::lru_distinct(entries),
        entries.len() <= 256,
        2 <= d.fragment_count <= d.fragment_id,
        lru_cache::lru_get(entries, d.packet_id) matches Some(p) ==> p.fragment_count
            == d.fragment_count,
    ensures
        assemble(entries, d).1 == AssemblyView::Dropped,
        lru_cache::lru_get(assemble(entries, d).0, k) == lru_cache::lru_get(entries, k),
{
    let rest = lru_cache::lru_without(entries, d.packet_id);
    if lru_cache::lru_get(entries, d.packet_id) is Some {
        let p = lru_cache::lru_get(entries, d.packet_id)->0;
        lru_cache::lru_without_forgets(entries, d.packet_id, k);
        lru_cache::lru_without_forgets(rest, d.packet_id, k);
        lru_cache::lru_put_keeps_others(rest, 256, d.packet_id, p, k);
    }
}

/// A fragment that arrives twice makes its packet be forgotten.
pub proof fn repeated_fragments_drop_the_packet(
    entries: Seq<(u16, PacketView)>,
    d: UdpDatagramView,
)
    requires
        lru_cache::lru_distinct(entries),
        entries.len() <= 256,
        packets_wf(entries),
        assemble(entries, d).1 == AssemblyView::Pending,
    ensures
        assemble(assemble(entries, d).0, d).1 == AssemblyView::Dropped,
        lru_cache::lru_get(assemble(assemble(entries, d).0, d).0, d.packet_id) is None,
{
    let rest = lru_cache::lru_without(entries, d.packet_id);
    let p = match lru_cache::lru_get(entries, d.packet_id) {
        Some(p) => p,
        None => fresh_packet(d.fragment_count, d.remote_location),
    };
    let q = with_part(p, d.fragment_id, d.payload);
    assemble_keeps_packets(entries, d);
    assemble_keeps_limit(entries, d);
    lru_cache::lemma_lru_put_get(rest, 256, d.packet_id, q);
    lru_cache::lemma_lru_without_all(assemble(entries, d).0, d.packet_id, |p: PacketView| p.wf());
    lru_cache::lemma_lru_without_all(entries, d.packet_id, |p: PacketView| p.wf());
    lemma_fresh_count(d.fragment_count as nat);
    assert(p.wf());
    assert(q.received[d.fragment_id as int] is Some);
    contradictions_drop_the_packet(assemble(entries, d).0, d, q);
}

/// A packet goes where its first fragment says, whatever the others say, and is forgotten once
/// it is complete.
pub proof fn first_fragment_gives_the_location(
    entries: Seq<(u16, PacketView)>,
    d: UdpDatagramView,
    p: PacketView,
)
    requires
        lru_cache::lru_distinct(entries),
        lru_cache::lru_get(entries, d.packet_id) == Some(p),
        2 <= d.fragment_count,
    ensures
        assemble(entries, d).1 is Pending ==> (lru_cache::lru_get(
            assemble(entries, d).0,
            d.packet_id,
        ) matches Some(q) && q.remote_location == p.remote_location),
        assemble(entries, d).1 matches AssemblyView::Complete(_, location) ==> {
            &&& location == p.remote_location
            &&& lru_cache::lru_get(assemble(entries, d).0, d.packet_id) is None
        },
{
    let rest = lru_cache::lru_without(entries, d.packet_id);
    lru_cache::lru_without_forgets(entries, d.packet_id, d.packet_id);
    lru_cache::lemma_lru_put_get(
        rest,
        256,
        d.packet_id,
        with_part(p, d.fragment_id, d.payload),
    );
}

// ========================= remote to local ==========================

/// A payload cut into pieces of `size` bytes, of which the last may be shorter.
pub open spec fn cut(payload: Seq<u8>, size: nat) -> Seq<Seq<u8>>
    decreases payload.len(),
{
    if size == 0 || payload.len() <= size {
        seq![payload]
    } else {
        seq![payload.take(size as int)] + cut(payload.skip(size as int), size)
    }
}

/// The bytes of a datagram in front of its payload.
pub open spec fn header_overhead(address: Seq<u8>) -> nat {
    8 + varint::varint_bytes(address.len())->0.len() + address.len()
}

/// The datagrams that carry a packet: one where it fits, or else one for each piece of its
/// payload. Their number is carried in one byte, and only as many pieces are sent as that
/// byte says.
pub open spec fn packet_datagrams(
    session_id: u32,
    packet_id: u16,
    address: Seq<u8>,
    payload: Seq<u8>,
    max_datagram_size: nat,
) -> Seq<Seq<u8>> {
    let overhead = header_overhead(address);
    if overhead + payload.len() <= max_datagram_size {
        seq![datagram_bytes(session_id, packet_id, 0, 1, address, payload)]
    } else {
        let parts = cut(payload, (max_datagram_size - overhead) as nat);
        let n = (parts.len() % 256) as u8;
        Seq::new(
            n as nat,
            |i: int| datagram_bytes(session_id, packet_id, i as u8, n, address, parts[i]),
        )
    }
}

/// The pieces of a payload, one behind the other, are the payload; none is longer than
/// `size`.
pub proof fn cut_joins(payload: Seq<u8>, size: nat)
    requires
        size > 0,
    ensures
        util::join(cut(payload, size)) == payload,
        cut(payload, size).len() > 0,
        forall|i: int|
            0 <= i < cut(payload, size).len() ==> (#[trigger] cut(payload, size)[i]).len() <= size,
    decreases payload.len(),
{
    if payload.len() <= size {
        util::lemma_join_one(payload);
    } else {
        let rest = payload.skip(size as int);
        cut_joins(rest, size);
        util::lemma_join_add(seq![payload.take(size as int)], cut(rest, size));
        util::lemma_join_one(payload.take(size as int));
        assert(payload.take(size as int) + rest =~= payload);
        assert forall|i: int| 0 <= i < cut(payload, size).len() implies (
        #[trigger] cut(payload, size)[i]).len() <= size by {
            if i > 0 {
                assert(cut(payload, size)[i] == cut(rest, size)[i - 1]);
            }
        }
    }
}

/// A payload of up to `n` times `size` bytes has at most `n` pieces, and one that is longer
/// than `size` has at least two.
pub proof fn cut_count(payload: Seq<u8>, size: nat, n: nat)
    requires
        size > 0,
        n > 0,
        payload.len() <= n * size,
    ensures
        cut(payload, size).len() <= n,
        payload.len() > size ==> cut(payload, size).len() >= 2,
    decreases payload.len(),
{
    if payload.len() > size {
        let rest = payload.skip(size as int);
        assert(n >= 2) by (nonlinear_arith)
            requires
                payload.len() <= n * size,
                payload.len() > size,
                n > 0,
        ;
        assert((n - 1) * size == n * size - size) by (nonlinear_arith);
        cut_count(rest, size, (n - 1) as nat);
        cut_joins(rest, size);
    }
}

/// Datagrams never exceed the size that the connection takes.
pub proof fn datagrams_fit(
    session_id: u32,
    packet_id: u16,
    address: Seq<u8>,
    payload: Seq<u8>,
    max_datagram_size: nat,
)
    requires
        varint::varint_bytes(address.len()) is Some,
        max_datagram_size > header_overhead(address),
    ensures
        forall|i: int|
            0 <= i < packet_datagrams(session_id, packet_id, address, payload, max_datagram_size).len()
                ==> (#[trigger] packet_datagrams(
                session_id,
                packet_id,
                address,
                payload,
                max_datagram_size,
            )[i]).len() <= max_datagram_size,
{
    cut_joins(payload, (max_datagram_size - header_overhead(address)) as nat);
}

/// A packet that was cut into datagrams is put together again, whatever the order in which
/// they arrive: with the last datagram the payload and the location come out.
pub proof fn packet_round_trip(
    entries: Seq<(u16, PacketView)>,
    session_id: u32,
    packet_id: u16,
    address: Seq<u8>,
    payload: Seq<u8>,
    max_datagram_size: nat,
    order: Seq<u8>,
)
    requires
        0 < address.len() <= 2048,
        tcp::location_in(address) is Ok,
        max_datagram_size > header_overhead(address),
        payload.len() <= 255 * (max_datagram_size - header_overhead(address)),
        lru_cache::lru_get(entries, packet_id) is None,
        order.no_duplicates(),
        order.len() == packet_datagrams(session_id, packet_id, address, payload, max_datagram_size).len(),
        forall|i: int| 0 <= i < order.len() ==> #[trigger] order[i] < order.len(),
    ensures
        ({
            let datagrams = packet_datagrams(session_id, packet_id, address, payload, max_datagram_size);
            let heard = Seq::new(order.len(), |k: int| datagram_of(datagrams[order[k] as int])->0);
            &&& order.len() > 0
            &&& forall|k: int|
                0 <= k < order.len() ==> datagram_of(#[trigger] datagrams[order[k] as int]) is Some
            &&& assemble(after_arrivals(entries, heard.drop_last()), heard.last()).1
                == AssemblyView::Complete(payload, tcp::location_in(address)->Ok_0)
        }),
{
    let size = (max_datagram_size - header_overhead(address)) as nat;
    let datagrams = packet_datagrams(session_id, packet_id, address, payload, max_datagram_size);
    let heard = Seq::new(order.len(), |k: int| datagram_of(datagrams[order[k] as int])->0);
    let location = tcp::location_in(address)->Ok_0;
    if payload.len() <= size {
        datagram_round_trip(session_id, packet_id, 0, 1, address, payload);
        assert(order[0] < 1);
        assert(heard.drop_last() =~= Seq::<UdpDatagramView>::empty());
    } else {
        let parts = cut(payload, size);
        cut_joins(payload, size);
        cut_count(payload, size, 255);
        let n = parts.len() as u8;
        let d = UdpDatagramView {
            session_id,
            packet_id,
            fragment_id: 0,
            fragment_count: n,
            remote_location: location,
            payload,
        };
        assert forall|k: int| 0 <= k < order.len() implies datagram_of(
            #[trigger] datagrams[order[k] as int],
        ) == Some(arrivals(d, parts, order)[k]) by {
            datagram_round_trip(
                session_id,
                packet_id,
                order[k],
                n,
                address,
                parts[order[k] as int],
            );
        }
        assert(heard =~= arrivals(d, parts, order)) by {
            assert forall|k: int| 0 <= k < order.len() implies heard[k] == arrivals(
                d,
                parts,
                order,
            )[k] by {
                assert(datagram_of(datagrams[order[k] as int]) == Some(arrivals(d, parts, order)[k]));
            }
        }
        fragments_assemble(entries, d, parts, order);
        let k = order.len() - 1;
        assert(heard.drop_last() =~= arrivals(d, parts, order).take(k));
        assert(heard.last() == arrivals(d, parts, order)[k]);
    }
}

/// Cuts a payload into pieces.
fn cut_payload(payload: &[u8], size: usize) -> (r: Vec<Vec<u8>>)
    requires
        size > 0,
    ensures
        text::views(r@) == cut(payload@, size as nat),
{
    let mut parts: Vec<Vec<u8>> = Vec::new();
    let n: usize = payload.len();
    let mut start: usize = 0;
    assert(payload@.skip(0) =~= payload@);
    assert(text::views(parts@) + cut(payload@, size as nat) =~= cut(payload@, size as nat));
    while n - start > size
        invariant
            start <= n,
            n == payload@.len(),
            size > 0,
            text::views(parts@) + cut(payload@.skip(start as int), size as nat) == cut(
                payload@,
                size as nat,
            ),
        decreases n - start,
    {
        let ghost before = text::views(parts@);
        let ghost rest = payload@.skip(start as int);
        let piece = util::copy_range(payload, start, start + size);
        parts.push(piece);
        proof {
            assert(piece@ =~= rest.take(size as int));
            assert(rest.skip(size as int) =~= payload@.skip(start + size));
            assert(text::views(parts@) =~= before.push(piece@));
            assert(text::views(parts@) + cut(payload@.skip(start + size), size as nat) =~= before
                + cut(rest, size as nat));
        }
        start = start + size;
    }
    let ghost before = text::views(parts@);
    let piece = util::copy_range(payload, start, n);
    parts.push(piece);
    proof {
        assert(piece@ =~= payload@.skip(start as int));
        assert(text::views(parts@) =~= before + seq![piece@]);
    }
    parts
}

/// Writes one datagram.
fn write_datagram(
    session_id: u32,
    packet_id: u16,
    fragment_id: u8,
    fragment_count: u8,
    address_len: &Vec<u8>,
    address: &Vec<u8>,
    payload: &[u8],
) -> (r: Vec<u8>)
    requires
        varint::varint_bytes(address@.len()) == Some(address_len@),
    ensures
        r@ == datagram_bytes(
            session_id,
            packet_id,
            fragment_id,
            fragment_count,
            address@,
            payload@,
        ),
{
    let mut datagram: Vec<u8> = Vec::new();
    util::push_be32(&mut datagram, session_id);
    util::push_be16(&mut datagram, packet_id);
    datagram.push(fragment_id);
    datagram.push(fragment_count);
    util::push_bytes(&mut datagram, address_len.as_slice());
    util::push_bytes(&mut datagram, address.as_slice());
    util::push_bytes(&mut datagram, payload);
    assert(datagram@ =~= datagram_bytes(
        session_id,
        packet_id,
        fragment_id,
        fragment_count,
        address@,
        payload@,
    ));
    datagram
}

/// Sends what comes back to a session on to its client.
pub struct RemoteToLocal {
    session_id: u32,
    max_datagram_size: usize,
    address: Option<Vec<u8>>,
    next_packet_id: u16,
}

impl RemoteToLocal {
    /// The address that datagrams carry: where the client sent the first packet to, where
    /// that has to stand in, or else where the packet came from.
    pub closed spec fn address_for(self, source: SocketAddrView) -> Seq<u8> {
        match self.address {
            Some(address) => address@,
            None => address::socket_text(source),
        }
    }

    /// The session.
    pub closed spec fn session(self) -> u32 {
        self.session_id
    }

    /// The longest datagram that the connection takes.
    pub closed spec fn limit(self) -> nat {
        self.max_datagram_size as nat
    }

    /// The number of the next packet.
    pub closed spec fn next_packet(self) -> u16 {
        self.next_packet_id
    }

    /// Whether datagrams have room for a payload behind an address.
    pub open spec fn has_room_for(self, source: SocketAddrView) -> bool {
        match varint::varint_bytes(self.address_for(source).len()) {
            Some(_) => self.limit() > header_overhead(self.address_for(source)),
            None => true,
        }
    }

    /// Starts with the first packet. Without datagrams on the connection there is no way
    /// back.
    pub fn new(
        session_id: u32,
        max_datagram_size: Option<usize>,
        override_local_write_address: Option<NetLocation>,
    ) -> (r: Result<Self, Error>)
        ensures
            match r {
                Ok(s) => {
                    &&& max_datagram_size == Some(s.limit() as usize)
                    &&& s.session() == session_id
                    &&& s.next_packet() == 0
                    &&& forall|source: SocketAddrView| #[trigger]
                        s.address_for(source) == (match override_local_write_address {
                            Some(location) => address::location_text(location@),
                            None => address::socket_text(source),
                        })
                },
                Err(e) => max_datagram_size is None && e == Error::DatagramsUnsupported,
            },
    {
        let max_datagram_size: usize = match max_datagram_size {
            Some(size) => size,
            None => {
                return Err(Error::DatagramsUnsupported);
            },
        };
        let address = match &override_local_write_address {
            Some(location) => {
                let address_text = location.to_string();
                Some(util::to_vec(address_text.as_str().as_bytes()))
            },
            None => None,
        };
        Ok(RemoteToLocal { session_id, max_datagram_size, address, next_packet_id: 0 })
    }

    fn address_bytes(&self, source: &SocketAddr) -> (r: Vec<u8>)
        ensures
            r@ == self.address_for(source@),
    {
        match &self.address {
            Some(address) => util::to_vec(address.as_slice()),
            None => {
                let address_text = source.to_string();
                util::to_vec(address_text.as_str().as_bytes())
            },
        }
    }

    /// Whether datagrams have room for a payload behind an address.
    pub fn has_room(&self, source: &SocketAddr) -> (r: bool)
        ensures
            r == self.has_room_for(source@),
    {
        let address = self.address_bytes(source);
        let n: usize = address.len();
        match varint::encode_varint(n as u64) {
            Ok(len) => {
                proof {
                    varint::lemma_varint_bytes_len(n as nat);
                }
                let k: usize = len.len();
                self.max_datagram_size > n && self.max_datagram_size - n > 8 + k
            },
            Err(_) => true,
        }
    }

    /// The datagrams that carry a packet from a source to the client. Packets are numbered in
    /// turn.
    pub fn forward(&mut self, payload: &[u8], source: &SocketAddr) -> (r: Result<
        Vec<Vec<u8>>,
        Error,
    >)
        requires
            old(self).has_room_for(source@),
        ensures
            final(self).session() == old(self).session(),
            final(self).limit() == old(self).limit(),
            final(self).next_packet() == (old(self).next_packet() + 1) % 65536,
            forall|s: SocketAddrView| #[trigger]
                final(self).address_for(s) == old(self).address_for(s),
            match r {
                Ok(datagrams) => {
                    &&& varint::varint_bytes(old(self).address_for(source@).len()) is Some
                    &&& text::views(datagrams@) == packet_datagrams(
                        old(self).session(),
                        old(self).next_packet(),
                        old(self).address_for(source@),
                        payload@,
                        old(self).limit(),
                    )
                },
                Err(e) => {
                    &&& varint::varint_bytes(old(self).address_for(source@).len()) is None
                    &&& e == Error::VarintTooLarge
                },
            },
    {
        let packet_id: u16 = self.next_packet_id;
        self.next_packet_id = self.next_packet_id.wrapping_add(1);
        let address = self.address_bytes(source);
        assert(address@ == old(self).address_for(source@));
        let address_len = match varint::encode_varint(address.len() as u64) {
            Ok(bytes) => bytes,
            Err(e) => {
                return Err(e);
            },
        };
        proof {
            varint::lemma_varint_bytes_len(address@.len());
        }
        let header_overhead: usize = 8 + address_len.len() + address.len();
        let available_payload: usize = self.max_datagram_size - header_overhead;
        let mut datagrams: Vec<Vec<u8>> = Vec::new();
        if payload.len() <= available_payload {
            let datagram = write_datagram(
                self.session_id,
                packet_id,
                0,
                1,
                &address_len,
                &address,
                payload,
            );
            datagrams.push(datagram);
            assert(text::views(datagrams@) =~= seq![datagram@]);
            return Ok(datagrams);
        }
        let parts = cut_payload(payload, available_payload);
        assert(parts@.len() == text::views(parts@).len());
        let fragment_count: u8 = (parts.len() % 256) as u8;
        let ghost wanted = packet_datagrams(
            self.session_id,
            packet_id,
            address@,
            payload@,
            self.max_datagram_size as nat,
        );
        let mut fragment_id: u8 = 0;
        while fragment_id < fragment_count
            invariant
                fragment_id <= fragment_count,
                fragment_count <= parts@.len(),
                varint::varint_bytes(address@.len()) == Some(address_len@),
                datagrams@.len() == fragment_id,
                wanted == Seq::new(
                    fragment_count as nat,
                    |i: int|
                        datagram_bytes(
                            self.session_id,
                            packet_id,
                            i as u8,
                            fragment_count,
                            address@,
                            text::views(parts@)[i],
                        ),
                ),
                forall|i: int| 0 <= i < fragment_id ==> (#[trigger] datagrams@[i])@ == wanted[i],
            decreases fragment_count - fragment_id,
        {
            let datagram = write_datagram(
                self.session_id,
                packet_id,
                fragment_id,
                fragment_count,
                &address_len,
                &address,
                parts[fragment_id as usize].as_slice(),
            );
            assert(datagram@ == wanted[fragment_id as int]);
            datagrams.push(datagram);
            fragment_id = fragment_id + 1;
        }
        assert(text::views(datagrams@) =~= wanted);
        Ok(datagrams)
    }
}

// ============================= sessions ==============================

/// Nanoseconds between two searches for old sessions.
pub const CLEANUP_INTERVAL: u64 = 10_000_000_000;

/// Nanoseconds after its start at which a session is old and dropped.
pub const IDLE_TIMEOUT: u64 = 60_000_000_000;

/// A client's UDP session.
pub struct UdpSession {
    fragments: Fragments,
    last_location: NetLocation,
    last_socket_addr: SocketAddr,
    override_remote_write_address: Option<SocketAddr>,
    /// When the session started. Packets do not renew it.
    last_activity: u64,
}

/// What a [`UdpSession`] stands for: the packets of which fragments have arrived, the
/// location that was resolved last and its address, the address that all packets go to where
/// there is one, and when the session started.
#[verifier::ext_equal]
pub struct UdpSessionView {
    pub fragments: Seq<(u16, PacketView)>,
    pub last_location: NetLocationView,
    pub last_socket_addr: SocketAddrView,
    pub override_remote_write_address: Option<SocketAddrView>,
    pub last_activity: u64,
}

/// What an optional socket address stands for.
pub open spec fn optional_addr(a: Option<SocketAddr>) -> Option<SocketAddrView> {
    match a {
        Some(a) => Some(a@),
        None => None,
    }
}

impl View for UdpSession {
    type V = UdpSessionView;

    closed spec fn view(&self) -> UdpSessionView {
        UdpSessionView {
            fragments: self.fragments@,
            last_location: self.last_location@,
            last_socket_addr: self.last_socket_addr@,
            override_remote_write_address: optional_addr(self.override_remote_write_address),
            last_activity: self.last_activity,
        }
    }
}

/// Where the packets of a new session go, by the location of its first packet and the address
/// that it resolved to: always to that address where the two are spelled differently.
pub open spec fn write_override(location: NetLocationView, resolved: SocketAddrView) -> Option<
    SocketAddrView,
> {
    if address::socket_text(resolved) != address::location_text(location) {
        Some(resolved)
    } else {
        None
    }
}

/// What is to be done with a datagram of a session.
pub enum Delivery {
    /// Nothing.
    Ignored,
    /// A payload is to be sent to an address.
    Send(Vec<u8>, SocketAddr),
    /// A payload is to be sent to a location that has to be resolved first.
    Resolve(Vec<u8>, NetLocation),
}

/// What a [`Delivery`] stands for.
#[verifier::ext_equal]
pub enum DeliveryView {
    Ignored,
    Send(Seq<u8>, SocketAddrView),
    Resolve(Seq<u8>, NetLocationView),
}

impl View for Delivery {
    type V = DeliveryView;

    open spec fn view(&self) -> DeliveryView {
        match self {
            Delivery::Ignored => DeliveryView::Ignored,
            Delivery::Send(payload, addr) => DeliveryView::Send(payload@, addr@),
            Delivery::Resolve(payload, location) => DeliveryView::Resolve(payload@, location@),
        }
    }
}

/// What is to be done with what came over the connection.
pub enum UdpStep {
    /// Nothing.
    Ignored,
    /// The location of a datagram is to be resolved, and its session started.
    ResolveInitial(UdpDatagram),
    /// A datagram was taken in by its session.
    Delivered(u32, Delivery),
}

/// Where a whole packet of a session goes.
pub open spec fn route(s: UdpSessionView, outcome: AssemblyView) -> DeliveryView {
    match outcome {
        AssemblyView::Complete(payload, location) => match s.override_remote_write_address {
            Some(addr) => DeliveryView::Send(payload, addr),
            None => if location == s.last_location {
                DeliveryView::Send(payload, s.last_socket_addr)
            } else {
                DeliveryView::Resolve(payload, location)
            },
        },
        _ => DeliveryView::Ignored,
    }
}

/// A whole packet goes to the one address of its session, where it has one. Else it goes to the
/// last address only where both the host and the port of its location are the last ones; for any
/// other location exactly that location is asked for. What is no whole packet goes nowhere.
pub proof fn packets_go_to_their_location(
    s: UdpSessionView,
    payload: Seq<u8>,
    location: NetLocationView,
)
    ensures
        s.override_remote_write_address matches Some(addr) ==> route(
            s,
            AssemblyView::Complete(payload, location),
        ) == DeliveryView::Send(payload, addr),
        s.override_remote_write_address is None && location.address == s.last_location.address
            && location.port == s.last_location.port ==> route(
            s,
            AssemblyView::Complete(payload, location),
        ) == DeliveryView::Send(payload, s.last_socket_addr),
        s.override_remote_write_address is None && (location.address != s.last_location.address
            || location.port != s.last_location.port) ==> route(
            s,
            AssemblyView::Complete(payload, location),
        ) == DeliveryView::Resolve(payload, location),
        route(s, AssemblyView::Pending) == DeliveryView::Ignored,
        route(s, AssemblyView::Dropped) == DeliveryView::Ignored,
{
}

/// Two packets of a session without an address of its own are sent to one address without
/// another lookup only where they go to one location.
pub proof fn one_address_for_one_location(
    s: UdpSessionView,
    a: Seq<u8>,
    b: Seq<u8>,
    to: NetLocationView,
    other: NetLocationView,
)
    requires
        s.override_remote_write_address is None,
        route(s, AssemblyView::Complete(a, to)) is Send,
        route(s, AssemblyView::Complete(b, other)) is Send,
    ensures
        to.address == other.address,
        to.port == other.port,
{
}

impl UdpSession {
    /// The fragments are well-formed.
    pub closed spec fn wf(self) -> bool {
        self.fragments.wf()
    }

    /// A session that starts with a packet to a location that resolved to an address.
    fn start(location: NetLocation, resolved: SocketAddr, now: u64) -> (r: Self)
        ensures
            r.wf(),
            r@ == (UdpSessionView {
                fragments: Seq::empty(),
                last_location: location@,
                last_socket_addr: resolved@,
                override_remote_write_address: write_override(location@, resolved@),
                last_activity: now,
            }),
    {
        let resolved_text = resolved.to_string();
        let location_text = location.to_string();
        proof {
            encode_utf8_decode_utf8(resolved_text@);
            encode_utf8_decode_utf8(location_text@);
        }
        let same: bool = text::same_text(resolved_text.as_str(), location_text.as_str());
        UdpSession {
            fragments: Fragments::new(),
            last_location: location,
            last_socket_addr: resolved,
            override_remote_write_address: if same {
                None
            } else {
                Some(resolved)
            },
            last_activity: now,
        }
    }

    /// Whether the session is not old.
    fn is_active(&self, now: u64) -> (r: bool)
        ensures
            r == !is_old(self@, now),
    {
        now.saturating_sub(self.last_activity) <= IDLE_TIMEOUT
    }

    fn deliver(&mut self, datagram: UdpDatagram) -> (r: Delivery)
        requires
            old(self).wf(),
        ensures
            final(self).wf(),
            final(self)@ == (UdpSessionView {
                fragments: assemble(old(self)@.fragments, datagram@).0,
                ..old(self)@
            }),
            r@ == route(old(self)@, assemble(old(self)@.fragments, datagram@).1),
    {
        match self.fragments.receive(datagram) {
            Assembly::Complete(payload, location) => match self.override_remote_write_address {
                Some(addr) => Delivery::Send(payload, addr),
                None => if location == self.last_location {
                    Delivery::Send(payload, self.last_socket_addr)
                } else {
                    Delivery::Resolve(payload, location)
                },
            },
            _ => Delivery::Ignored,
        }
    }
}

/// `rustc_hash::FxBuildHasher`, the hasher of the session table.
#[verifier::external_type_specification]
#[verifier::external_body]
pub struct ExFxBuildHasher(rustc_hash::FxBuildHasher);

/// Makes an empty table.
///
/// Calls `HashMap::with_hasher` with a `rustc_hash::FxBuildHasher`, which makes the
/// `FxHashMap` of `rustc_hash`: the table holds nothing.
#[verifier::external_body]
fn new_sessions() -> (r: HashMap<u32, UdpSession, FxBuildHasher>)
    ensures
        r@ =~= Map::empty(),
{
    HashMap::with_hasher(FxBuildHasher)
}

/// Whether a table holds a session.
///
/// Calls `HashMap::contains_key` on an `FxHashMap`.
#[verifier::external_body]
fn has_session(sessions: &HashMap<u32, UdpSession, FxBuildHasher>, id: u32) -> (r: bool)
    ensures
        r == sessions@.contains_key(id),
{
    sessions.contains_key(&id)
}

/// Looks a session up.
///
/// Calls `HashMap::get_mut` on an `FxHashMap`: what is written through the reference replaces
/// the session, and nothing else changes.
#[verifier::external_body]
fn get_session(sessions: &mut HashMap<u32, UdpSession, FxBuildHasher>, id: u32) -> (r: Option<
    &mut UdpSession,
>)
    ensures
        match r {
            Some(session) => {
                &&& old(sessions)@.contains_key(id)
                &&& *session == old(sessions)@[id]
                &&& final(sessions)@ == old(sessions)@.insert(id, *final(session))
            },
            None => !old(sessions)@.contains_key(id) && final(sessions)@ == old(sessions)@,
        },
{
    sessions.get_mut(&id)
}

/// Puts a session into a table.
///
/// Calls `HashMap::insert` on an `FxHashMap`: the session replaces any other under its
/// number.
#[verifier::external_body]
fn insert_session(
    sessions: &mut HashMap<u32, UdpSession, FxBuildHasher>,
    id: u32,
    session: UdpSession,
)
    ensures
        final(sessions)@ == old(sessions)@.insert(id, session),
{
    sessions.insert(id, session);
}

/// Takes a session out of a table.
///
/// Calls `HashMap::remove` on an `FxHashMap`.
#[verifier::external_body]
fn remove_session(sessions: &mut HashMap<u32, UdpSession, FxBuildHasher>, id: u32)
    ensures
        final(sessions)@ == old(sessions)@.remove(id),
{
    sessions.remove(&id);
}

/// Drops the old sessions of a table.
///
/// Calls `HashMap::retain` on an `FxHashMap`: the sessions stay that
/// [`UdpSession::is_active`] holds of, as they are.
#[verifier::external_body]
fn retain_sessions(sessions: &mut HashMap<u32, UdpSession, FxBuildHasher>, now: u64)
    ensures
        forall|id: u32|
            #[trigger] final(sessions)@.contains_key(id) <==> old(sessions)@.contains_key(id)
                && !is_old(old(sessions)@[id]@, now),
        forall|id: u32|
            #[trigger] final(sessions)@.contains_key(id) ==> final(sessions)@[id] == old(
                sessions,
            )@[id],
{
    sessions.retain(|_, session| session.is_active(now));
}

/// The UDP sessions of a connection.
pub struct UdpSessions {
    sessions: HashMap<u32, UdpSession, FxBuildHasher>,
    last_cleanup: u64,
}

impl View for UdpSessions {
    type V = Map<u32, UdpSessionView>;

    closed spec fn view(&self) -> Map<u32, UdpSessionView> {
        self.sessions@.map_values(|s: UdpSession| s@)
    }
}

/// Whether a session is old: it started too long ago, however much it was used since.
pub open spec fn is_old(s: UdpSessionView, now: u64) -> bool {
    now - s.last_activity > IDLE_TIMEOUT
}

/// The sessions that are not old.
pub open spec fn without_old(sessions: Map<u32, UdpSessionView>, now: u64) -> Map<u32, UdpSessionView> {
    Map::new(
        |id: u32| sessions.contains_key(id) && !is_old(sessions[id], now),
        |id: u32| sessions[id],
    )
}

impl UdpSessions {
    /// Every session is well-formed.
    pub closed spec fn wf(self) -> bool {
        forall|id: u32| #[trigger] self.sessions@.contains_key(id) ==> self.sessions@[id].wf()
    }

    /// When old sessions were searched for last.
    pub closed spec fn cleaned_at(self) -> u64 {
        self.last_cleanup
    }

    /// No sessions yet.
    pub fn new(now: u64) -> (r: Self)
        ensures
            r.wf(),
            r@ == Map::<u32, UdpSessionView>::empty(),
            r.cleaned_at() == now,
    {
        let r = UdpSessions { sessions: new_sessions(), last_cleanup: now };
        assert(r@ =~= Map::<u32, UdpSessionView>::empty());
        r
    }

    /// Whether there is a session with a number.
    pub fn contains(&self, session_id: u32) -> (r: bool)
        ensures
            r == self@.contains_key(session_id),
    {
        has_session(&self.sessions, session_id)
    }

    /// Starts the session of a datagram, whose location resolved to an address. What comes
    /// back carries the location that is handed over, where there is one, and else the
    /// address that it came from.
    pub fn start(&mut self, datagram: &UdpDatagram, resolved: SocketAddr, now: u64) -> (r: Option<
        NetLocation,
    >)
        requires
            old(self).wf(),
        ensures
            final(self).wf(),
            final(self).cleaned_at() == old(self).cleaned_at(),
            final(self)@ == old(self)@.insert(
                datagram.session_id,
                UdpSessionView {
                    fragments: Seq::empty(),
                    last_location: datagram@.remote_location,
                    last_socket_addr: resolved@,
                    override_remote_write_address: write_override(
                        datagram@.remote_location,
                        resolved@,
                    ),
                    last_activity: now,
                },
            ),
            match r {
                Some(location) => {
                    &&& write_override(datagram@.remote_location, resolved@) is Some
                    &&& location@ == datagram@.remote_location
                },
                None => write_override(datagram@.remote_location, resolved@) is None,
            },
            forall|id: u32|
                id != datagram.session_id ==> #[trigger] final(self)@.contains_key(id) == old(
                    self,
                )@.contains_key(id) && final(self)@[id] == old(self)@[id],
    {
        let session = UdpSession::start(datagram.remote_location.clone(), resolved, now);
        let overridden: bool = session.override_remote_write_address.is_some();
        insert_session(&mut self.sessions, datagram.session_id, session);
        assert(self@ =~= old(self)@.insert(datagram.session_id, session@));
        if overridden {
            Some(datagram.remote_location.clone())
        } else {
            None
        }
    }

    /// Takes in a datagram of a session, and says where a packet that it completes goes.
    pub fn deliver(&mut self, datagram: UdpDatagram) -> (r: Delivery)
        requires
            old(self).wf(),
            old(self)@.contains_key(datagram.session_id),
        ensures
            final(self).wf(),
            final(self).cleaned_at() == old(self).cleaned_at(),
            ({
                let s = old(self)@[datagram.session_id];
                let (fragments, outcome) = assemble(s.fragments, datagram@);
                &&& final(self)@ == old(self)@.insert(
                    datagram.session_id,
                    UdpSessionView { fragments, ..s },
                )
                &&& r@ == route(s, outcome)
            }),
            forall|id: u32|
                id != datagram.session_id ==> #[trigger] final(self)@.contains_key(id) == old(
                    self,
                )@.contains_key(id) && final(self)@[id] == old(self)@[id],
    {
        let session_id: u32 = datagram.session_id;
        let ghost d = datagram@;
        let ghost s = self@[session_id];
        let r = match get_session(&mut self.sessions, session_id) {
            Some(session) => session.deliver(datagram),
            None => Delivery::Ignored,
        };
        assert(self@ =~= old(self)@.insert(
            session_id,
            UdpSessionView { fragments: assemble(s.fragments, d).0, ..s },
        ));
        r
    }

    /// Takes note of what the new location of a session resolved to.
    pub fn relocate(&mut self, session_id: u32, location: NetLocation, resolved: SocketAddr)
        requires
            old(self).wf(),
            old(self)@.contains_key(session_id),
        ensures
            final(self).wf(),
            final(self).cleaned_at() == old(self).cleaned_at(),
            final(self)@ == old(self)@.insert(
                session_id,
                UdpSessionView {
                    last_location: location@,
                    last_socket_addr: resolved@,
                    ..old(self)@[session_id]
                },
            ),
            forall|id: u32|
                id != session_id ==> #[trigger] final(self)@.contains_key(id) == old(
                    self,
                )@.contains_key(id) && final(self)@[id] == old(self)@[id],
    {
        let ghost s = self@[session_id];
        match get_session(&mut self.sessions, session_id) {
            Some(session) => {
                session.last_location = location;
                session.last_socket_addr = resolved;
            },
            None => {},
        }
        assert(self@ =~= old(self)@.insert(
            session_id,
            UdpSessionView { last_location: location@, last_socket_addr: resolved@, ..s },
        ));
    }

    /// Drops a session that cannot send any more.
    pub fn remove(&mut self, session_id: u32)
        requires
            old(self).wf(),
        ensures
            final(self).wf(),
            final(self).cleaned_at() == old(self).cleaned_at(),
            final(self)@ == old(self)@.remove(session_id),
            forall|id: u32|
                id != session_id ==> #[trigger] final(self)@.contains_key(id) == old(
                    self,
                )@.contains_key(id),
    {
        remove_session(&mut self.sessions, session_id);
        assert(self@ =~= old(self)@.remove(session_id));
    }

    /// Drops the old sessions, where it is time to search for them.
    pub fn cleanup(&mut self, now: u64) -> (r: bool)
        requires
            old(self).wf(),
        ensures
            final(self).wf(),
            r == (now - old(self).cleaned_at() > CLEANUP_INTERVAL),
            r ==> final(self).cleaned_at() == now && final(self)@ == without_old(old(self)@, now),
            !r ==> *final(self) == *old(self),
    {
        if now.saturating_sub(self.last_cleanup) <= CLEANUP_INTERVAL {
            return false;
        }
        retain_sessions(&mut self.sessions, now);
        self.last_cleanup = now;
        assert(self@ =~= without_old(old(self)@, now));
        true
    }

    /// Takes in what came over the connection. A datagram of a session is delivered; one of no
    /// session starts one, once its location is resolved.
    pub fn receive(&mut self, data: &[u8]) -> (r: UdpStep)
        requires
            old(self).wf(),
        ensures
            final(self).wf(),
            final(self).cleaned_at() == old(self).cleaned_at(),
            match datagram_of(data@) {
                None => r is Ignored && final(self)@ == old(self)@,
                Some(d) => if old(self)@.contains_key(d.session_id) {
                    let s = old(self)@[d.session_id];
                    let (fragments, outcome) = assemble(s.fragments, d);
                    &&& r matches UdpStep::Delivered(id, delivery)
                    &&& id == d.session_id
                    &&& delivery@ == route(s, outcome)
                    &&& final(self)@ == old(self)@.insert(
                        d.session_id,
                        UdpSessionView { fragments, ..s },
                    )
                } else {
                    &&& r matches UdpStep::ResolveInitial(datagram)
                    &&& datagram@ == d
                    &&& final(self)@ == old(self)@
                },
            },
    {
        let datagram = match parse_udp_datagram(data) {
            Some(datagram) => datagram,
            None => {
                return UdpStep::Ignored;
            },
        };
        let session_id: u32 = datagram.session_id;
        if self.contains(session_id) {
            UdpStep::Delivered(session_id, self.deliver(datagram))
        } else {
            UdpStep::ResolveInitial(datagram)
        }
    }
}

/// What a datagram says, by the places of its bytes: four of the session, two of the packet, one
/// of the fragment, one of how many there are, the address behind its length, and the payload.
/// The address has 1 to 2048 bytes and is a location; what is not like this says nothing.
pub proof fn datagrams_are_read(d: Seq<u8>, len: nat, n: nat)
    requires
        d.len() >= 9,
        varint::first_varint(d.skip(8)) == Some((len, n)),
    ensures
        ({
            let to = 8 + n + len;
            let location = tcp::location_in(d.subrange((8 + n) as int, to as int));
            let whole = 0 < len <= 2048 && d.len() >= to && location is Ok;
            &&& datagram_of(d) is Some <==> whole
            &&& datagram_of(d) matches Some(x) ==> {
                &&& x.session_id == d[0] * 16777216 + d[1] * 65536 + d[2] * 256 + d[3]
                &&& x.packet_id == d[4] * 256 + d[5]
                &&& x.fragment_id == d[6]
                &&& x.fragment_count == d[7]
                &&& location == Ok::<NetLocationView, Error>(x.remote_location)
                &&& x.payload == d.skip(to as int)
            }
        }),
{
    util::big_endian_order(d[4], d[5], 0, 0, 0, 0);
    util::big_endian_order(d[0], d[1], d[2], d[3], 0, 0);
    assert(d.take(4) =~= seq![d[0], d[1], d[2], d[3]]);
}

/// A datagram that ends before its address says nothing.
pub proof fn short_datagrams_say_nothing(d: Seq<u8>)
    requires
        d.len() < 9 || varint::first_varint(d.skip(8)) is None,
    ensures
        datagram_of(d) is None,
{
}

/// A datagram is its payload and, in front of it, eight bytes, the length of the address in its
/// shortest form, and the address.
pub proof fn datagram_layout(
    session_id: u32,
    packet_id: u16,
    fragment_id: u8,
    fragment_count: u8,
    address: Seq<u8>,
    payload: Seq<u8>,
)
    requires
        address.len() < 16384,
    ensures
        ({
            let d = datagram_bytes(
                session_id,
                packet_id,
                fragment_id,
                fragment_count,
                address,
                payload,
            );
            let from = if address.len() < 64 {
                9int
            } else {
                10
            };
            &&& header_overhead(address) == from + address.len()
            &&& d.len() == header_overhead(address) + payload.len()
            &&& d[0] * 16777216 + d[1] * 65536 + d[2] * 256 + d[3] == session_id
            &&& d[4] * 256 + d[5] == packet_id
            &&& d[6] == fragment_id
            &&& d[7] == fragment_count
            &&& address.len() < 64 ==> d[8] == address.len()
            &&& address.len() >= 64 ==> (d[8] - 64) * 256 + d[9] == address.len()
            &&& d.subrange(from, from + address.len()) == address
            &&& d.skip(from + address.len()) == payload
        }),
{
    let d = datagram_bytes(session_id, packet_id, fragment_id, fragment_count, address, payload);
    let v = varint::varint_bytes(address.len())->0;
    let id = util::be32_bytes(session_id);
    let packet = util::be16_bytes(packet_id);
    varint::varint_is_shortest(address.len());
    varint::varint_reads_big_endian(v);
    util::big_endian_order(0, 0, 0, 0, packet_id, session_id);
    let from = 8 + v.len() as int;
    assert(d[0] == id[0] && d[1] == id[1] && d[2] == id[2] && d[3] == id[3]);
    assert(d[4] == packet[0] && d[5] == packet[1]);
    assert(d[8] == v[0]);
    assert(v.len() == 2 ==> d[9] == v[1]);
    assert(d.subrange(from, from + address.len()) =~= address);
    assert(d.skip(from + address.len()) =~= payload);
}

/// A payload is cut at the multiples of the size: each piece starts where the one before it ends,
/// all are of the size but the last, which has the rest, and there are no more than it takes.
pub proof fn pieces_lie_side_by_side(payload: Seq<u8>, size: nat, i: nat)
    requires
        size > 0,
        i < cut(payload, size).len(),
    ensures
        i + 1 < cut(payload, size).len() ==> (i + 1) * size < payload.len() && cut(
            payload,
            size,
        )[i as int] == payload.subrange((i * size) as int, ((i + 1) * size) as int),
        i + 1 == cut(payload, size).len() ==> i * size <= payload.len() <= (i + 1) * size && cut(
            payload,
            size,
        )[i as int] == payload.skip((i * size) as int),
        i + 1 == cut(payload, size).len() && i > 0 ==> i * size < payload.len(),
    decreases payload.len(),
{
    if payload.len() <= size {
        assert(i == 0);
        assert(0 * size == 0) by (nonlinear_arith);
        assert(1 * size == size) by (nonlinear_arith);
        assert(payload.skip(0) =~= payload);
    } else {
        let rest = payload.skip(size as int);
        assert(cut(payload, size) == seq![payload.take(size as int)] + cut(rest, size));
        cut_joins(rest, size);
        if i == 0 {
            assert(0 * size == 0) by (nonlinear_arith);
            assert(1 * size == size) by (nonlinear_arith);
            assert(payload.take(size as int) =~= payload.subrange(0, size as int));
        } else {
            let j = (i - 1) as nat;
            pieces_lie_side_by_side(rest, size, j);
            assert(cut(payload, size)[i as int] == cut(rest, size)[j as int]);
            assert(i * size == j * size + size) by (nonlinear_arith)
                requires
                    i == j + 1,
            ;
            assert((i + 1) * size == i * size + size) by (nonlinear_arith);
            assert((j + 1) * size == j * size + size) by (nonlinear_arith);
            assert(j * size >= 0) by (nonlinear_arith);
            if i + 1 < cut(payload, size).len() {
                assert(rest.subrange((j * size) as int, ((j + 1) * size) as int)
                    =~= payload.subrange((i * size) as int, ((i + 1) * size) as int));
            } else {
                assert(rest.skip((j * size) as int) =~= payload.skip((i * size) as int));
            }
        }
    }
}

/// A packet that fits into one datagram goes in one, which says that it is all of it. One that
/// does not goes in as many as its payload has pieces, as far as one byte counts them, each with
/// its place and their number, and all with the number of the packet and the same address.
pub proof fn packets_are_cut_where_needed(
    session_id: u32,
    packet_id: u16,
    address: Seq<u8>,
    payload: Seq<u8>,
    max_datagram_size: nat,
    i: int,
)
    requires
        max_datagram_size > header_overhead(address),
        0 < address.len() <= 2048,
        tcp::location_in(address) is Ok,
    ensures
        ({
            let datagrams = packet_datagrams(
                session_id,
                packet_id,
                address,
                payload,
                max_datagram_size,
            );
            let room = max_datagram_size - header_overhead(address);
            let pieces = cut(payload, room as nat);
            &&& payload.len() <= room ==> datagrams.len() == 1
            &&& payload.len() > room ==> datagrams.len() == pieces.len() % 256
            &&& 0 <= i < datagrams.len() ==> {
                &&& datagram_of(datagrams[i]) matches Some(x)
                &&& x.session_id == session_id
                &&& x.packet_id == packet_id
                &&& x.fragment_id == i
                &&& x.fragment_count == datagrams.len()
                &&& tcp::location_in(address) == Ok::<NetLocationView, Error>(x.remote_location)
                &&& payload.len() <= room ==> x.payload == payload
                &&& payload.len() > room ==> x.payload == pieces[i]
            }
        }),
{
    let room = (max_datagram_size - header_overhead(address)) as nat;
    let pieces = cut(payload, room);
    let n = (pieces.len() % 256) as u8;
    if payload.len() <= room {
        datagram_round_trip(session_id, packet_id, 0, 1, address, payload);
    } else if 0 <= i < n {
        datagram_round_trip(session_id, packet_id, i as u8, n, address, pieces[i]);
    }
}

/// An address stands in for a location where the two are spelled differently, and then it is the
/// address that the location resolved to. That of an IPv4 address which is its own does not; a
/// resolved IPv6 address stands in for any IP address.
pub proof fn overrides_keep_the_address(location: NetLocationView, resolved: SocketAddrView)
    requires
        address::socket_wf(resolved),
        location.address is Ipv4 ==> location.address->Ipv4_0.len() == 4,
        location.address is Ipv6 ==> location.address->Ipv6_0.len() == 16,
    ensures
        write_override(location, resolved) matches Some(a) ==> a == resolved,
        write_override(location, resolved) is None <==> address::socket_text(resolved)
            == address::location_text(location),
        location.address matches AddressView::Ipv4(ip) ==> (write_override(location, resolved)
            is None <==> resolved == SocketAddrView::V4(ip, location.port)),
        resolved is V6 && !(location.address is Hostname) ==> write_override(location, resolved)
            == Some(resolved),
{
    if location.address is Ipv4 {
        let ip = location.address->Ipv4_0;
        let own = SocketAddrView::V4(ip, location.port);
        address::socket_round_trip(own);
        assert(address::socket_text(own) == address::location_text(location));
        if resolved is V4 {
            address::socket_round_trip(resolved);
            if address::socket_text(resolved) == address::location_text(location) {
                assert(address::socket_location(resolved) == location);
            }
        } else {
            assert(address::socket_text(resolved)[0] == 91);
            ip::lemma_ipv4_text_bytes(ip);
            assert(address::location_text(location)[0] == ip::ipv4_text(ip)[0]);
        }
    } else if location.address is Ipv6 && resolved is V6 {
        let ip = location.address->Ipv6_0;
        assert(address::socket_text(resolved)[0] == 91);
        ip::ipv6_starts_with_a_digit_or_colon(ip);
        assert(address::location_text(location)[0] == ip::ipv6_text(ip)[0]);
    }
}

/// A session is old once more than sixty seconds have passed since it started.
pub proof fn sessions_grow_old(sessions: Map<u32, UdpSessionView>, id: u32, now: u64)
    ensures
        sessions.contains_key(id) && now <= sessions[id].last_activity + 60_000_000_000
            ==> without_old(sessions, now).contains_key(id) && without_old(sessions, now)[id]
            == sessions[id],
        sessions.contains_key(id) && now > sessions[id].last_activity + 60_000_000_000
            ==> !without_old(sessions, now).contains_key(id),
        !sessions.contains_key(id) ==> !without_old(sessions, now).contains_key(id),
{
}

/// Old sessions are searched for once more than ten seconds have passed since the last time.
pub proof fn cleanup_interval_is_ten_seconds()
    ensures
        CLEANUP_INTERVAL == 10_000_000_000,
{
}

/// There is room for a payload where the longest datagram is longer than what stands in front of
/// it.
pub proof fn room_is_what_the_header_leaves(s: RemoteToLocal, source: SocketAddrView)
    requires
        s.address_for(source).len() < 16384,
    ensures
        s.has_room_for(source) <==> s.limit() > s.address_for(source).len() + (if s.address_for(
            source,
        ).len() < 64 {
            9int
        } else {
            10
        }),
{
    varint::varint_is_shortest(s.address_for(source).len());
}

} // verus!
