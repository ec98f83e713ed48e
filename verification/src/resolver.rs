//! Minimal DNS resolver with a small cache. Asking the system for the addresses of a name is
//! left to the caller.

use std::num::NonZeroUsize;

use lru::LruCache;
use vstd::prelude::*;
use vstd::utf8::*;

use crate::address;
use crate::address::{NetLocation, NetLocationView, SocketAddr, SocketAddrView};
use crate::error::Error;
use crate::lru_cache;
use crate::text;

verus! {

/// How many names are cached.
pub const CACHE_SIZE: usize = 1024;

/// Nanoseconds for which a cached address is used.
pub const CACHE_TTL: u64 = 60_000_000_000;

/// An address, and when it was found.
#[derive(Debug, Clone, Copy)]
pub struct CacheEntry {
    addr: SocketAddr,
    inserted: u64,
}

/// What a [`CacheEntry`] stands for.
#[verifier::ext_equal]
pub struct CacheEntryView {
    pub addr: SocketAddrView,
    pub inserted: u64,
}

impl View for CacheEntry {
    type V = CacheEntryView;

    closed spec fn view(&self) -> CacheEntryView {
        CacheEntryView { addr: self.addr@, inserted: self.inserted }
    }
}

/// The names in a cache with their addresses, the one used last first.
pub uninterp spec fn cache_entries(cache: LruCache<String, CacheEntry>) -> Seq<
    (Seq<char>, CacheEntryView),
>;

/// How many names a cache takes.
pub uninterp spec fn cache_capacity(cache: LruCache<String, CacheEntry>) -> nat;

/// Makes an empty cache.
///
/// Calls `lru::LruCache::new`: the cache holds nothing, and will hold up to `capacity`
/// entries.
#[verifier::external_body]
fn new_cache(capacity: usize) -> (r: LruCache<String, CacheEntry>)
    requires
        capacity > 0,
    ensures
        cache_entries(r) == Seq::<(Seq<char>, CacheEntryView)>::empty(),
        cache_capacity(r) == capacity,
{
    LruCache::new(NonZeroUsize::new(capacity).unwrap())
}

/// Looks a name up in a cache.
///
/// Calls `lru::LruCache::get`: an entry that is found becomes the one used last.
#[verifier::external_body]
fn get_cached(cache: &mut LruCache<String, CacheEntry>, key: &str) -> (r: Option<CacheEntry>)
    ensures
        match r {
            Some(entry) => lru_cache::lru_get(cache_entries(*old(cache)), key@) == Some(entry@),
            None => lru_cache::lru_get(cache_entries(*old(cache)), key@) is None,
        },
        cache_entries(*final(cache)) == lru_cache::lru_touch(cache_entries(*old(cache)), key@),
        cache_capacity(*final(cache)) == cache_capacity(*old(cache)),
{
    cache.get(key).copied()
}

/// Puts a name into a cache.
///
/// Calls `lru::LruCache::put`: the entry comes first in place of any other with its key, and
/// a cache that is full loses the entry that was used longest ago.
#[verifier::external_body]
fn put_cached(cache: &mut LruCache<String, CacheEntry>, key: String, entry: CacheEntry)
    ensures
        cache_entries(*final(cache)) == lru_cache::lru_put(
            cache_entries(*old(cache)),
            cache_capacity(*old(cache)),
            key@,
            entry@,
        ),
        cache_capacity(*final(cache)) == cache_capacity(*old(cache)),
{
    cache.put(key, entry);
}

/// The address of a location that needs no lookup.
pub open spec fn literal_addr(location: NetLocationView) -> Option<SocketAddrView> {
    match location.address {
        address::AddressView::Ipv4(ip) => Some(SocketAddrView::V4(ip, location.port)),
        address::AddressView::Ipv6(ip) => Some(SocketAddrView::V6(ip, location.port, 0)),
        address::AddressView::Hostname(_) => None,
    }
}

/// The key under which a location is cached: how it is spelled.
pub open spec fn cache_key(location: NetLocationView) -> Seq<char> {
    decode_utf8(address::location_text(location))
}

/// The address that is known of a location: that of an IP literal, or one that was cached not
/// too long ago.
pub open spec fn known_addr(
    entries: Seq<(Seq<char>, CacheEntryView)>,
    location: NetLocationView,
    now: u64,
) -> Option<SocketAddrView> {
    match literal_addr(location) {
        Some(addr) => Some(addr),
        None => match lru_cache::lru_get(entries, cache_key(location)) {
            Some(entry) => if now - entry.inserted < CACHE_TTL {
                Some(entry.addr)
            } else {
                None
            },
            None => None,
        },
    }
}

/// The first IPv4 address.
pub open spec fn first_ipv4(addrs: Seq<SocketAddr>) -> Option<SocketAddrView>
    decreases addrs.len(),
{
    if addrs.len() == 0 {
        None
    } else if addrs[0]@ is V4 {
        Some(addrs[0]@)
    } else {
        first_ipv4(addrs.skip(1))
    }
}

/// The address that is used of those of a name: the first IPv4 address, or else the first.
pub open spec fn preferred(addrs: Seq<SocketAddr>) -> Option<SocketAddrView> {
    match first_ipv4(addrs) {
        Some(addr) => Some(addr),
        None => if addrs.len() > 0 {
            Some(addrs[0]@)
        } else {
            None
        },
    }
}

/// Picks an address of those of a name. IPv4 comes first to match typical direct-connect
/// behavior.
pub fn lookup_host(addrs: &[SocketAddr]) -> (r: Result<SocketAddr, Error>)
    ensures
        match r {
            Ok(addr) => preferred(addrs@) == Some(addr@),
            Err(e) => preferred(addrs@) is None && e == Error::NoAddresses,
        },
{
    let n: usize = addrs.len();
    if n == 0 {
        return Err(Error::NoAddresses);
    }
    let mut i: usize = 0;
    assert(addrs@.skip(0) =~= addrs@);
    while i < n
        invariant
            i <= n,
            n == addrs@.len(),
            first_ipv4(addrs@) == first_ipv4(addrs@.skip(i as int)),
        decreases n - i,
    {
        let addr = addrs[i];
        assert(addrs@.skip(i as int)[0] == addr);
        if addr.is_ipv4() {
            return Ok(addr);
        }
        assert(addrs@.skip(i as int).skip(1) =~= addrs@.skip(i + 1));
        i = i + 1;
    }
    Ok(addrs[0])
}

/// Finds addresses, with a cache for names.
pub struct Resolver {
    cache: LruCache<String, CacheEntry>,
    /// TCP congestion control algorithm for outbound connections
    /// (e.g. "bbr", "cubic", or "" for system default).
    tcp_congestion: String,
}

impl Resolver {
    /// The cache has its size.
    pub closed spec fn wf(self) -> bool {
        cache_capacity(self.cache) == CACHE_SIZE
    }

    /// The cached names with their addresses.
    pub closed spec fn cached(self) -> Seq<(Seq<char>, CacheEntryView)> {
        cache_entries(self.cache)
    }

    /// The congestion control algorithm.
    pub closed spec fn congestion(self) -> Seq<char> {
        self.tcp_congestion@
    }

    /// A resolver for connections with the system's congestion control.
    pub fn new() -> (r: Self)
        ensures
            r.wf(),
            r.cached() == Seq::<(Seq<char>, CacheEntryView)>::empty(),
            r.congestion() == ""@,
    {
        Self::with_tcp_congestion("".to_owned())
    }

    /// A resolver for connections with a congestion control algorithm.
    pub fn with_tcp_congestion(algo: String) -> (r: Self)
        ensures
            r.wf(),
            r.cached() == Seq::<(Seq<char>, CacheEntryView)>::empty(),
            r.congestion() == algo@,
    {
        Resolver { cache: new_cache(CACHE_SIZE), tcp_congestion: algo }
    }

    /// Returns the configured TCP congestion control algorithm.
    pub fn tcp_congestion(&self) -> (r: &str)
        ensures
            r@ == self.congestion(),
    {
        self.tcp_congestion.as_str()
    }

    /// Resolves a location into a concrete socket address.
    ///
    /// IP literals resolve immediately; hostnames come out of the cache. `None`: the system
    /// is to be asked, and its answer handed to [`Resolver::looked_up`].
    pub fn resolve(&mut self, location: &NetLocation, now: u64) -> (r: Option<SocketAddr>)
        requires
            old(self).wf(),
        ensures
            final(self).wf(),
            final(self).congestion() == old(self).congestion(),
            match r {
                Some(addr) => known_addr(old(self).cached(), location@, now) == Some(addr@),
                None => known_addr(old(self).cached(), location@, now) is None,
            },
            final(self).cached() == (if literal_addr(location@) is Some {
                old(self).cached()
            } else {
                lru_cache::lru_touch(old(self).cached(), cache_key(location@))
            }),
    {
        match location.to_socket_addr_nonblocking() {
            Some(addr) => {
                return Some(addr);
            },
            None => {},
        }
        let key = location.to_string();
        proof {
            encode_utf8_decode_utf8(key@);
        }
        match get_cached(&mut self.cache, key.as_str()) {
            Some(entry) => {
                if now.saturating_sub(entry.inserted) < CACHE_TTL {
                    return Some(entry.addr);
                }
            },
            None => {},
        }
        None
    }

    /// Takes in the addresses that the system has for a name, and caches the one that is
    /// used.
    pub fn looked_up(&mut self, location: &NetLocation, addrs: &[SocketAddr], now: u64) -> (r: Result<
        SocketAddr,
        Error,
    >)
        requires
            old(self).wf(),
        ensures
            final(self).wf(),
            final(self).congestion() == old(self).congestion(),
            match r {
                Ok(addr) => {
                    &&& preferred(addrs@) == Some(addr@)
                    &&& final(self).cached() == lru_cache::lru_put(
                        old(self).cached(),
                        CACHE_SIZE as nat,
                        cache_key(location@),
                        CacheEntryView { addr: addr@, inserted: now },
                    )
                },
                Err(e) => {
                    &&& preferred(addrs@) is None
                    &&& e == Error::NoAddresses
                    &&& final(self).cached() == old(self).cached()
                },
            },
    {
        let addr = match lookup_host(addrs) {
            Ok(addr) => addr,
            Err(e) => {
                return Err(e);
            },
        };
        let key = location.to_string();
        proof {
            encode_utf8_decode_utf8(key@);
        }
        put_cached(&mut self.cache, key, CacheEntry { addr, inserted: now });
        Ok(addr)
    }
}

/// A name that was looked up is known for a while, by the address that was used.
pub proof fn lookup_is_cached(
    entries: Seq<(Seq<char>, CacheEntryView)>,
    location: NetLocationView,
    addr: SocketAddrView,
    looked_up: u64,
    now: u64,
)
    requires
        literal_addr(location) is None,
        now - looked_up < CACHE_TTL,
    ensures
        known_addr(
            lru_cache::lru_put(
                entries,
                CACHE_SIZE as nat,
                cache_key(location),
                CacheEntryView { addr, inserted: looked_up },
            ),
            location,
            now,
        ) == Some(addr),
{
    lru_cache::lemma_lru_put_get(
        entries,
        CACHE_SIZE as nat,
        cache_key(location),
        CacheEntryView { addr, inserted: looked_up },
    );
}

/// Resolving one location changes nothing of what is known of any.
pub proof fn resolve_keeps_known(
    entries: Seq<(Seq<char>, CacheEntryView)>,
    location: NetLocationView,
    other: NetLocationView,
    now: u64,
)
    ensures
        known_addr(lru_cache::lru_touch(entries, cache_key(location)), other, now) == known_addr(
            entries,
            other,
            now,
        ),
{
    lru_cache::lemma_lru_touch_get(entries, cache_key(location), cache_key(other));
}

/// An IP address needs no lookup: it is its own address, at the port that is asked for, whatever
/// is cached.
pub proof fn literals_are_their_own_address(
    entries: Seq<(Seq<char>, CacheEntryView)>,
    ip: Seq<u8>,
    port: u16,
    now: u64,
)
    ensures
        known_addr(
            entries,
            NetLocationView { address: address::AddressView::Ipv4(ip), port },
            now,
        ) == Some(SocketAddrView::V4(ip, port)),
        known_addr(
            entries,
            NetLocationView { address: address::AddressView::Ipv6(ip), port },
            now,
        ) == Some(SocketAddrView::V6(ip, port, 0)),
{
}

/// A name is known by its cached address for sixty seconds, and is looked up again then.
pub proof fn names_are_known_for_a_minute(
    entries: Seq<(Seq<char>, CacheEntryView)>,
    name: Seq<char>,
    port: u16,
    now: u64,
)
    ensures
        ({
            let location = NetLocationView { address: address::AddressView::Hostname(name), port };
            match lru_cache::lru_get(entries, cache_key(location)) {
                Some(entry) => {
                    &&& now < entry.inserted + 60_000_000_000 ==> known_addr(entries, location, now)
                        == Some(entry.addr)
                    &&& now >= entry.inserted + 60_000_000_000 ==> known_addr(
                        entries,
                        location,
                        now,
                    ) is None
                },
                None => known_addr(entries, location, now) is None,
            }
        }),
{
}

/// Names are cached with their ports: different names, or different ports of one name, are
/// different entries.
pub proof fn names_and_ports_are_kept_apart(a: Seq<char>, p: u16, b: Seq<char>, q: u16)
    requires
        cache_key(NetLocationView { address: address::AddressView::Hostname(a), port: p })
            == cache_key(NetLocationView { address: address::AddressView::Hostname(b), port: q }),
    ensures
        a == b,
        p == q,
{
    let s = NetLocationView { address: address::AddressView::Hostname(a), port: p };
    let t = NetLocationView { address: address::AddressView::Hostname(b), port: q };
    lemma_key_spells(a, p);
    lemma_key_spells(b, q);
    let n = encode_utf8(a).len() as int;
    let whole = address::location_text(s);
    assert(whole == address::location_text(t));
    assert(text::last_place(whole, 58) == n);
    assert(whole.take(n) =~= encode_utf8(a));
    assert(whole.take(n) =~= encode_utf8(b));
    encode_utf8_decode_utf8(a);
    encode_utf8_decode_utf8(b);
    assert(whole.skip(n + 1) =~= text::decimal_text(p as nat));
    assert(whole.skip(n + 1) =~= text::decimal_text(q as nat));
    text::lemma_decimal_text(p as nat);
    text::lemma_decimal_text(q as nat);
}

/// The key of a name spells it, with its port behind its last colon.
proof fn lemma_key_spells(name: Seq<char>, port: u16)
    ensures
        ({
            let location = NetLocationView { address: address::AddressView::Hostname(name), port };
            &&& encode_utf8(cache_key(location)) == address::location_text(location)
            &&& text::last_place(address::location_text(location), 58) == encode_utf8(name).len()
        }),
{
    let location = NetLocationView { address: address::AddressView::Hostname(name), port };
    let host = encode_utf8(name);
    let digits = text::decimal_text(port as nat);
    let tail = seq![58u8] + digits;
    let whole = address::location_text(location);
    text::lemma_decimal_text(port as nat);
    assert forall|i: int| 0 <= i < tail.len() implies #[trigger] tail[i] < 128 by {
        if i > 0 {
            assert(text::is_digit(digits[i - 1]));
        }
    }
    text::lemma_ascii_is_utf8(tail);
    encode_utf8_valid_utf8(name);
    valid_utf8_concat(host, tail);
    assert(whole =~= host + tail);
    decode_utf8_encode_utf8(whole);
    assert forall|i: int| host.len() < i < whole.len() implies whole[i] != 58 by {
        assert(whole[i] == digits[i - host.len() - 1]);
        assert(text::is_digit(digits[i - host.len() - 1]));
    }
    text::lemma_last_place_unique(whole, 58, host.len() as int);
}

/// Caching the address of one name changes nothing of what is known of another, as long as there
/// is room for it.
pub proof fn lookups_do_not_mix(
    entries: Seq<(Seq<char>, CacheEntryView)>,
    a: Seq<char>,
    p: u16,
    b: Seq<char>,
    q: u16,
    entry: CacheEntryView,
    now: u64,
)
    requires
        lru_cache::lru_distinct(entries),
        entries.len() < 1024,
        a != b || p != q,
    ensures
        ({
            let location = NetLocationView {
                address: address::AddressView::Hostname(a),
                port: p,
            };
            let other = NetLocationView { address: address::AddressView::Hostname(b), port: q };
            known_addr(
                lru_cache::lru_put(entries, CACHE_SIZE as nat, cache_key(location), entry),
                other,
                now,
            ) == known_addr(entries, other, now)
        }),
{
    let location = NetLocationView { address: address::AddressView::Hostname(a), port: p };
    let other = NetLocationView { address: address::AddressView::Hostname(b), port: q };
    if cache_key(location) == cache_key(other) {
        names_and_ports_are_kept_apart(a, p, b, q);
    }
    lru_cache::lemma_lru_place(entries, cache_key(location));
    lru_cache::lru_put_keeps_others(entries, 1024, cache_key(location), entry, cache_key(other));
}

/// Of several addresses the first IPv4 address is used, wherever it stands; without one the first
/// of all is.
pub proof fn first_ipv4_is_preferred(addrs: Seq<SocketAddr>, i: int)
    requires
        0 <= i <= addrs.len(),
        forall|j: int| 0 <= j < i ==> !((#[trigger] addrs[j])@ is V4),
        i < addrs.len() ==> addrs[i]@ is V4,
    ensures
        i < addrs.len() ==> preferred(addrs) == Some(addrs[i]@),
        i == addrs.len() && i > 0 ==> preferred(addrs) == Some(addrs[0]@),
        addrs.len() == 0 ==> preferred(addrs) is None,
        first_ipv4(addrs) == (if i < addrs.len() {
            Some(addrs[i]@)
        } else {
            None
        }),
    decreases addrs.len(),
{
    if addrs.len() > 0 && i > 0 {
        let rest = addrs.skip(1);
        assert(!(addrs[0]@ is V4));
        assert forall|j: int| 0 <= j < i - 1 implies !((#[trigger] rest[j])@ is V4) by {
            assert(rest[j] == addrs[j + 1]);
        }
        first_ipv4_is_preferred(rest, i - 1);
    }
}

} // verus!
