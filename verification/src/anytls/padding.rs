//! Padding schemes: into records of which size the first packets of a session are cut.

use std::sync::Arc;

use md5::{Digest, Md5};
use vstd::prelude::*;
use vstd::slice::slice_subrange;
use vstd::string::*;
use vstd::utf8::*;

use crate::anytls::types;
use crate::anytls::types::StringMap;
use crate::error::Error;
use crate::random;
use crate::text;
use crate::util;

verus! {

/// Check mark constant - indicates "stop if no more data" in padding scheme
pub const CHECK_MARK: i32 = -1;

/// The default padding scheme of AnyTLS
pub const DEFAULT_PADDING_SCHEME: &'static str = "stop=8\n0=30-30\n1=100-400\n2=400-500,c,500-1000,c,500-1000,c,500-1000,c,500-1000\n3=9-9,500-1000\n4=500-1000\n5=500-1000\n6=500-1000\n7=500-1000";

// ============================== schemes ==============================

/// What a scheme says of one record: to stop where no data is left, or to make it of a size
/// between two bounds.
#[derive(Debug, Clone, Copy, PartialEq, Eq, Structural)]
pub enum PaddingRule {
    Check,
    Size(i64, i64),
}

/// The number that a text spells, where it is positive and no more than 2^63 - 1.
pub open spec fn positive(s: Seq<u8>) -> Option<i64> {
    match text::parse_unsigned(text::trim(s), 9223372036854775807) {
        Some(n) => if n > 0 {
            Some(n as i64)
        } else {
            None
        },
        None => None,
    }
}

/// What one part of an entry says: `c`, or two positive numbers with a hyphen between them, in
/// any order. Anything else says nothing.
pub open spec fn rule_of(part: Seq<u8>) -> Option<PaddingRule> {
    let t = text::trim(part);
    let i = text::first_place(t, 45);
    if t == seq![99u8] {
        Some(PaddingRule::Check)
    } else if i < t.len() {
        match (positive(t.take(i)), positive(t.skip(i + 1))) {
            (Some(a), Some(b)) => Some(
                if a <= b {
                    PaddingRule::Size(a, b)
                } else {
                    PaddingRule::Size(b, a)
                },
            ),
            _ => None,
        }
    } else {
        None
    }
}

/// What some parts say, those left out that say nothing.
pub open spec fn rules_of(parts: Seq<Seq<u8>>) -> Seq<PaddingRule>
    decreases parts.len(),
{
    if parts.len() == 0 {
        Seq::empty()
    } else {
        match rule_of(parts.last()) {
            Some(rule) => rules_of(parts.drop_last()).push(rule),
            None => rules_of(parts.drop_last()),
        }
    }
}

/// What a scheme says of a packet: the parts of the entry under its number, between commas.
pub open spec fn packet_rules(raw: Seq<u8>, pkt: u32) -> Seq<PaddingRule> {
    let scheme = types::settings_in(types::lines(raw));
    let key = text::decimal_text(pkt as nat);
    if scheme.contains_key(key) {
        rules_of(text::split_on(scheme[key], 44))
    } else {
        Seq::empty()
    }
}

/// The number of packets to pad that a scheme gives.
pub open spec fn stop_of(raw: Seq<u8>) -> Result<u32, Error> {
    let scheme = types::settings_in(types::lines(raw));
    let key = encode_utf8("stop"@);
    if !scheme.contains_key(key) {
        Err(Error::MissingStop)
    } else {
        match text::parse_unsigned(scheme[key], 4294967295) {
            Some(n) => Ok(n as u32),
            None => Err(Error::InvalidStop),
        }
    }
}

/// Sizes that follow rules.
pub open spec fn size_follows(size: i32, rule: PaddingRule) -> bool {
    match rule {
        PaddingRule::Check => size == CHECK_MARK,
        PaddingRule::Size(low, high) => exists|n: i64| low <= n <= high && size == #[trigger] as_size(n),
    }
}

/// The 32 lowest bits of a number, as a number with a sign.
pub open spec fn as_size(n: i64) -> i32 {
    let low = n % 4294967296;
    if low < 2147483648 {
        low as i32
    } else {
        (low - 4294967296) as i32
    }
}

/// The MD5 digest of some bytes.
pub uninterp spec fn md5_of(data: Seq<u8>) -> Seq<u8>;

/// Computes an MD5 digest.
///
/// Calls `md5::Digest::digest` of `md5::Md5`. The contract names the digest and says nothing
/// more of it than its length.
#[verifier::external_body]
fn md5_digest(data: &[u8]) -> (r: [u8; 16])
    ensures
        r@ == md5_of(data@),
{
    Md5::digest(data).into()
}

fn read_positive(s: &[u8]) -> (r: Option<i64>)
    ensures
        r == positive(s@),
{
    match text::read_unsigned(text::trim_bytes(s), 9223372036854775807) {
        Some(n) => if n > 0 {
            Some(n as i64)
        } else {
            None
        },
        None => None,
    }
}

fn read_rule(part: &[u8]) -> (r: Option<PaddingRule>)
    ensures
        r == rule_of(part@),
{
    let t = text::trim_bytes(part);
    let n: usize = t.len();
    if n == 1 && t[0] == 99 {
        assert(t@ =~= seq![99u8]);
        return Some(PaddingRule::Check);
    }
    let i: usize = text::find_first(t, 45);
    proof {
        text::lemma_first_place(t@, 45);
    }
    if i == n {
        return None;
    }
    let low = slice_subrange(t, 0, i);
    let high = slice_subrange(t, i + 1, n);
    assert(low@ =~= t@.take(i as int));
    assert(high@ =~= t@.skip(i + 1));
    match (read_positive(low), read_positive(high)) {
        (Some(a), Some(b)) => if a <= b {
            Some(PaddingRule::Size(a, b))
        } else {
            Some(PaddingRule::Size(b, a))
        },
        _ => None,
    }
}

impl PaddingRule {
    /// The bounds lie in order and are positive.
    pub open spec fn wf(self) -> bool {
        match self {
            PaddingRule::Check => true,
            PaddingRule::Size(low, high) => 0 < low <= high,
        }
    }

    /// The size of a record for which `drawn` was drawn between the bounds.
    pub fn size(self, drawn: i64) -> (r: i32)
        ensures
            r == (match self {
                PaddingRule::Check => CHECK_MARK,
                PaddingRule::Size(low, high) => if low == high {
                    as_size(low)
                } else {
                    as_size(drawn)
                },
            }),
    {
        match self {
            PaddingRule::Check => CHECK_MARK,
            PaddingRule::Size(low, high) => if low == high {
                truncate(low)
            } else {
                truncate(drawn)
            },
        }
    }
}

fn truncate(n: i64) -> (r: i32)
    ensures
        r == as_size(n),
{
    let low: i64 = if n >= 0 {
        n % 4294967296
    } else {
        let back: i64 = (-(n + 1)) % 4294967296;
        4294967295 - back
    };
    assert(low == n % 4294967296);
    if low < 2147483648 {
        low as i32
    } else {
        (low - 4294967296) as i32
    }
}

/// The rules of a scheme have their bounds in order.
proof fn lemma_rules_wf(parts: Seq<Seq<u8>>)
    ensures
        forall|i: int| 0 <= i < rules_of(parts).len() ==> (#[trigger] rules_of(parts)[i]).wf(),
    decreases parts.len(),
{
    if parts.len() > 0 {
        let front = rules_of(parts.drop_last());
        lemma_rules_wf(parts.drop_last());
        assert forall|i: int| 0 <= i < rules_of(parts).len() implies (
        #[trigger] rules_of(parts)[i]).wf() by {
            if i < front.len() {
                assert(rules_of(parts)[i] == front[i]);
            }
        }
    }
}

// ============================== factory ==============================

/// PaddingFactory generates padding sizes according to the configured scheme
#[derive(Debug, Clone)]
pub struct PaddingFactory {
    /// Parsed scheme as key-value map
    scheme: StringMap,
    /// Raw scheme bytes (for transmission to clients)
    raw_scheme: Vec<u8>,
    /// Stop padding after this many packets
    stop: u32,
    /// MD5 hash of the scheme (for comparison)
    md5: String,
}

impl PaddingFactory {
    /// Everything follows from the raw scheme.
    pub closed spec fn wf(self) -> bool {
        &&& self.scheme.wf()
        &&& self.scheme@ == types::settings_in(types::lines(self.raw_scheme@))
        &&& stop_of(self.raw_scheme@) == Ok::<u32, Error>(self.stop)
        &&& md5_of(self.raw_scheme@).len() == 16
        &&& encode_utf8(self.md5@) == text::hex_bytes(md5_of(self.raw_scheme@))
    }

    /// The raw scheme.
    pub closed spec fn raw(self) -> Seq<u8> {
        self.raw_scheme@
    }

    /// How many packets are padded.
    pub open spec fn stop_value(self) -> u32 {
        stop_of(self.raw())->Ok_0
    }

    /// Creates a factory from raw scheme bytes. A scheme has to say when to stop.
    pub fn new(raw_scheme: &[u8]) -> (r: Result<Self, Error>)
        ensures
            match r {
                Ok(factory) => {
                    &&& factory.wf()
                    &&& factory.raw() == raw_scheme@
                    &&& stop_of(raw_scheme@) is Ok
                },
                Err(e) => stop_of(raw_scheme@) == Err::<u32, Error>(e),
            },
    {
        let scheme = StringMap::from_bytes(raw_scheme);
        let stop: u32 = match scheme.get("stop".as_bytes()) {
            Some(value) => match text::read_unsigned(value, 4294967295) {
                Some(n) => n as u32,
                None => {
                    return Err(Error::InvalidStop);
                },
            },
            None => {
                return Err(Error::MissingStop);
            },
        };
        let digest = md5_digest(raw_scheme);
        let md5 = text::hex_string(digest.as_slice());
        Ok(PaddingFactory { scheme, raw_scheme: util::to_vec(raw_scheme), stop, md5 })
    }

    /// The default padding factory.
    pub fn default_factory() -> (r: Arc<Self>)
        ensures
            r.wf(),
            r.raw() == encode_utf8(DEFAULT_PADDING_SCHEME@),
    {
        Arc::new(Self::default())
    }

    /// The stop value (number of packets to pad)
    pub fn stop(&self) -> (r: u32)
        requires
            self.wf(),
        ensures
            r == self.stop_value(),
    {
        self.stop
    }

    /// The MD5 hash of the scheme, in 32 lower-case hexadecimal digits
    pub fn md5(&self) -> (r: &str)
        requires
            self.wf(),
        ensures
            encode_utf8(r@) == text::hex_bytes(md5_of(self.raw())),
            encode_utf8(r@).len() == 32,
            forall|i: int|
                0 <= i < encode_utf8(r@).len() ==> text::is_digit(#[trigger] encode_utf8(r@)[i])
                    || 97 <= encode_utf8(r@)[i] <= 102,
    {
        proof {
            text::lemma_hex_bytes(md5_of(self.raw()));
        }
        self.md5.as_str()
    }

    /// The raw scheme bytes
    pub fn raw_scheme(&self) -> (r: &[u8])
        ensures
            r@ == self.raw(),
    {
        self.raw_scheme.as_slice()
    }

    /// What the scheme says of a packet.
    pub fn record_rules(&self, pkt: u32) -> (r: Vec<PaddingRule>)
        requires
            self.wf(),
        ensures
            r@ == packet_rules(self.raw(), pkt),
    {
        let mut key: Vec<u8> = Vec::new();
        text::push_decimal(&mut key, pkt as u64);
        assert(key@ =~= text::decimal_text(pkt as nat));
        let spec = match self.scheme.get(key.as_slice()) {
            Some(spec) => spec,
            None => {
                return Vec::new();
            },
        };
        let parts = text::split_bytes(spec, 44);
        let ghost pieces = text::split_on(spec@, 44);
        let n: usize = parts.len();
        let mut rules: Vec<PaddingRule> = Vec::new();
        let mut i: usize = 0;
        assert(pieces.take(0) =~= Seq::<Seq<u8>>::empty());
        while i < n
            invariant
                i <= n,
                n == parts@.len(),
                n == pieces.len(),
                text::views(parts@) == pieces,
                rules@ == rules_of(pieces.take(i as int)),
            decreases n - i,
        {
            assert(text::views(parts@)[i as int] == parts@[i as int]@);
            proof {
                assert(pieces.take(i + 1).drop_last() =~= pieces.take(i as int));
                assert(pieces.take(i + 1).last() == parts@[i as int]@);
            }
            match read_rule(parts[i].as_slice()) {
                Some(rule) => {
                    rules.push(rule);
                },
                None => {},
            }
            i = i + 1;
        }
        assert(pieces.take(n as int) =~= pieces);
        rules
    }

    /// Generates record payload sizes for a given packet number
    ///
    /// Returns a vector of sizes, where CHECK_MARK (-1) indicates
    /// "stop processing if no more payload data"
    pub fn generate_record_payload_sizes(&self, pkt: u32) -> (r: Vec<i32>)
        requires
            self.wf(),
        ensures
            r@.len() == packet_rules(self.raw(), pkt).len(),
            forall|i: int|
                0 <= i < r@.len() ==> size_follows(
                    #[trigger] r@[i],
                    packet_rules(self.raw(), pkt)[i],
                ),
    {
        let rules = self.record_rules(pkt);
        let n: usize = rules.len();
        let mut sizes: Vec<i32> = Vec::new();
        let mut i: usize = 0;
        proof {
            let scheme = types::settings_in(types::lines(self.raw()));
            let key = text::decimal_text(pkt as nat);
            if scheme.contains_key(key) {
                lemma_rules_wf(text::split_on(scheme[key], 44));
            }
        }
        while i < n
            invariant
                i <= n,
                n == rules@.len(),
                sizes@.len() == i,
                forall|j: int| 0 <= j < n ==> (#[trigger] rules@[j]).wf(),
                forall|j: int| 0 <= j < i ==> size_follows(#[trigger] sizes@[j], rules@[j]),
            decreases n - i,
        {
            let rule = rules[i];
            assert(rules@[i as int].wf());
            let drawn: i64 = match rule {
                PaddingRule::Check => 0,
                PaddingRule::Size(low, high) => if low == high {
                    low
                } else {
                    random::random_range(low, high)
                },
            };
            let size: i32 = rule.size(drawn);
            proof {
                match rule {
                    PaddingRule::Check => {},
                    PaddingRule::Size(low, high) => {
                        assert(low <= drawn <= high && size == as_size(drawn));
                    },
                }
                assert(size_follows(size, rule));
            }
            sizes.push(size);
            i = i + 1;
        }
        sizes
    }
}

/// The bytes of the default scheme: it starts with its stop entry, and no other entry is
/// named so.
proof fn lemma_default_scheme()
    ensures
        ({
            let b = encode_utf8(DEFAULT_PADDING_SCHEME@);
            let s = encode_utf8("stop"@);
            &&& b.len() > 7
            &&& s.len() == 4
            &&& s[0] == 115
            &&& b.take(4) == s
            &&& b[4] == 61
            &&& b[5] == 56
            &&& b[6] == 10
            &&& forall|i: int| 7 <= i < b.len() ==> b[i] != 115
        }),
{
    reveal_strlit(
        "stop=8\n0=30-30\n1=100-400\n2=400-500,c,500-1000,c,500-1000,c,500-1000,c,500-1000\n3=9-9,500-1000\n4=500-1000\n5=500-1000\n6=500-1000\n7=500-1000",
    );
    reveal_strlit("stop");
    let d = DEFAULT_PADDING_SCHEME@;
    assert(is_ascii_chars(d));
    is_ascii_chars_encode_utf8(d);
    assert(is_ascii_chars("stop"@));
    is_ascii_chars_encode_utf8("stop"@);
    let b = encode_utf8(d);
    let s = encode_utf8("stop"@);
    assert(forall|i: int| 7 <= i < d.len() ==> d[i] != 's');
    assert forall|i: int| 7 <= i < b.len() implies b[i] != 115 by {
        assert(d[i] != 's');
    }
    assert(b.take(4) =~= s) by {
        assert(d[0] == 's' && d[1] == 't' && d[2] == 'o' && d[3] == 'p');
    }
    assert(d[4] == '=' && d[5] == '8' && d[6] == '\n');
}

/// A line in front of others keeps its setting, where none of them has the same key.
proof fn lemma_first_setting(
    first: Seq<u8>,
    others: Seq<Seq<u8>>,
    key: Seq<u8>,
    value: Seq<u8>,
)
    requires
        types::setting_of(first) == Some((key, value)),
        forall|i: int|
            0 <= i < others.len() ==> (types::setting_of(#[trigger] others[i]) matches Some((k, _))
                ==> k != key),
    ensures
        types::settings_in(seq![first] + others).contains_key(key),
        types::settings_in(seq![first] + others)[key] == value,
    decreases others.len(),
{
    let all = seq![first] + others;
    if others.len() == 0 {
        assert(all.drop_last() =~= Seq::<Seq<u8>>::empty());
        assert(all.last() == first);
    } else {
        let front = others.drop_last();
        assert forall|i: int| 0 <= i < front.len() implies (types::setting_of(#[trigger] front[i])
            matches Some((k, _)) ==> k != key) by {
            assert(front[i] == others[i]);
        }
        lemma_first_setting(first, front, key, value);
        assert(all.drop_last() =~= seq![first] + front);
        assert(all.last() == others[others.len() - 1]);
    }
}

/// The default scheme pads eight packets.
pub proof fn default_scheme_stops()
    ensures
        stop_of(encode_utf8(DEFAULT_PADDING_SCHEME@)) == Ok::<u32, Error>(8),
{
    let b = encode_utf8(DEFAULT_PADDING_SCHEME@);
    let key = encode_utf8("stop"@);
    lemma_default_scheme();
    let first = b.take(6);
    let rest = b.skip(7);
    assert(b =~= first.push(10) + rest);
    text::lemma_split_join(first, 10, rest);
    assert forall|i: int| 0 <= i < first.len() implies first[i] != 10 by {
        if i < 4 {
            assert(first[i] == b.take(4)[i]);
            assert(key[i] != 10) by {
                reveal_strlit("stop");
                is_ascii_chars_encode_utf8("stop"@);
                assert("stop"@[i] != '\n');
            }
        }
    }
    text::lemma_split_single(first, 10);
    text::lemma_split_nonempty(rest, 10);
    let pieces = text::split_on(b, 10);
    assert(pieces =~= seq![first] + text::split_on(rest, 10));
    let all = types::lines(b);
    let others = all.skip(1);
    assert(all[0] == first);
    assert(all =~= seq![first] + others);
    assert forall|i: int| 0 <= i < rest.len() implies rest[i] != 115 by {
        assert(rest[i] == b[i + 7]);
    }
    text::lemma_split_avoids(rest, 10, 115);
    assert forall|i: int| 0 <= i < others.len() implies (types::setting_of(#[trigger] others[i])
        matches Some((k, _)) ==> k != key) by {
        let piece = text::split_on(rest, 10)[i];
        assert(pieces[i + 1] == piece);
        assert(others[i] == all[i + 1]);
        text::lemma_first_place(others[i], 61);
        if types::setting_of(others[i]) is Some {
            let (k, _) = types::setting_of(others[i])->0;
            if k == key {
                assert(k[0] == others[i][0]);
                assert(others[i][0] == piece[0]);
            }
        }
    }
    assert forall|i: int| 0 <= i < 4 implies first[i] != 61 by {
        assert(first[i] == b.take(4)[i]);
        assert(key[i] != 61) by {
            reveal_strlit("stop");
            is_ascii_chars_encode_utf8("stop"@);
            assert("stop"@[i] != '=');
        }
    }
    text::lemma_first_place_unique(first, 61, 4);
    assert(first.take(4) =~= key);
    assert(first.skip(5) =~= seq![56u8]);
    lemma_first_setting(first, others, key, seq![56u8]);
    assert(text::parse_unsigned(seq![56u8], 4294967295) == Some(8nat)) by {
        reveal_with_fuel(text::digits_value, 2);
        assert(text::without_plus(seq![56u8]) =~= seq![56u8]);
        assert(seq![56u8].drop_last() =~= Seq::<u8>::empty());
    }
}

impl Default for PaddingFactory {
    fn default() -> (r: Self)
        ensures
            r.wf(),
            r.raw() == encode_utf8(DEFAULT_PADDING_SCHEME@),
    {
        proof {
            default_scheme_stops();
        }
        let factory = PaddingFactory::new(DEFAULT_PADDING_SCHEME.as_bytes());
        factory.unwrap()
    }
}

/// A spelled number has no blanks around it.
proof fn lemma_decimal_trim(n: nat)
    ensures
        text::trim(text::decimal_text(n)) == text::decimal_text(n),
{
    let t = text::decimal_text(n);
    text::lemma_decimal_text(n);
    assert(text::is_digit(t[0]));
    assert(text::is_digit(t[t.len() - 1]));
    text::trim_cuts_blanks(t);
}

/// A part with a hyphen is read as the two numbers around its first hyphen, blanks around each left
/// out. Unless both are positive numbers it says nothing; else they are bounds, in whichever order
/// they stand.
pub proof fn hyphens_part_two_numbers(low: Seq<u8>, high: Seq<u8>, a: nat, b: nat)
    requires
        text::trim(low + seq![45u8] + high) == low + seq![45u8] + high,
        forall|i: int| 0 <= i < low.len() ==> low[i] != 45,
    ensures
        ({
            let rule = rule_of(low + seq![45u8] + high);
            let first = text::parse_unsigned(text::trim(low), 9223372036854775807);
            let second = text::parse_unsigned(text::trim(high), 9223372036854775807);
            &&& first is None || second is None || first == Some(0nat) || second == Some(0nat)
                ==> rule is None
            &&& first == Some(a) && second == Some(b) && 0 < a <= b ==> rule == Some(
                PaddingRule::Size(a as i64, b as i64),
            )
            &&& first == Some(a) && second == Some(b) && 0 < b <= a ==> rule == Some(
                PaddingRule::Size(b as i64, a as i64),
            )
        }),
{
    let t = low + seq![45u8] + high;
    let p = low.len() as int;
    assert(t[p] == 45);
    assert(p < t.len());
    if t == seq![99u8] {
        assert(t[0] == 99);
    }
    assert forall|i: int| 0 <= i < p implies t[i] != 45 by {
        assert(t[i] == low[i]);
    }
    text::lemma_first_place_unique(t, 45, p);
    assert(t.take(p) =~= low);
    assert(t.skip(p + 1) =~= high);
}

/// Two texts that neither start nor end with blanks, with a hyphen between them, do not either.
proof fn lemma_range_trim(low: Seq<u8>, high: Seq<u8>)
    requires
        low.len() > 0,
        high.len() > 0,
        text::is_digit(low[0]),
        text::is_digit(high.last()),
    ensures
        text::trim(low + seq![45u8] + high) == low + seq![45u8] + high,
{
    let t = low + seq![45u8] + high;
    assert(t[0] == low[0]);
    assert(t[t.len() - 1] == high.last());
    text::trim_cuts_blanks(t);
}

/// Two numbers with a hyphen between them are bounds, in whichever order they stand. Zero is no
/// bound, nor is a number that does not fit.
pub proof fn ranges_are_read(a: nat, b: nat)
    ensures
        ({
            let rule = rule_of(text::decimal_text(a) + seq![45u8] + text::decimal_text(b));
            &&& 0 < a <= b <= 9223372036854775807 ==> rule == Some(
                PaddingRule::Size(a as i64, b as i64),
            )
            &&& 0 < b <= a <= 9223372036854775807 ==> rule == Some(
                PaddingRule::Size(b as i64, a as i64),
            )
            &&& a == 0 || b == 0 || a > 9223372036854775807 || b > 9223372036854775807 ==> rule
                is None
        }),
{
    let low = text::decimal_text(a);
    let high = text::decimal_text(b);
    text::lemma_decimal_text(a);
    text::lemma_decimal_text(b);
    assert(text::is_digit(low[0]));
    assert(text::is_digit(high[high.len() - 1]));
    lemma_decimal_trim(a);
    lemma_decimal_trim(b);
    lemma_range_trim(low, high);
    assert forall|i: int| 0 <= i < low.len() implies low[i] != 45 by {
        assert(text::is_digit(low[i]));
    }
    text::parse_unsigned_reads_decimals(a, 9223372036854775807);
    text::parse_unsigned_reads_decimals(b, 9223372036854775807);
    hyphens_part_two_numbers(low, high, a, b);
}

/// Blanks around the numbers of a range make no difference.
pub proof fn ranges_may_hold_blanks(a: nat, b: nat)
    ensures
        rule_of(text::decimal_text(a) + seq![32u8, 45, 32] + text::decimal_text(b)) == rule_of(
            text::decimal_text(a) + seq![45u8] + text::decimal_text(b),
        ),
{
    let low = text::decimal_text(a);
    let high = text::decimal_text(b);
    let front = low.push(32);
    let back = seq![32u8] + high;
    text::lemma_decimal_text(a);
    text::lemma_decimal_text(b);
    assert(text::is_digit(low[0]));
    assert(text::is_digit(high[high.len() - 1]));
    lemma_decimal_trim(a);
    lemma_decimal_trim(b);
    text::trim_ignores_blanks(low, 32, low);
    text::trim_ignores_blanks(high, 32, high);
    lemma_range_trim(low, high);
    lemma_range_trim(front, back);
    assert forall|i: int| 0 <= i < low.len() implies low[i] != 45 by {
        assert(text::is_digit(low[i]));
    }
    assert forall|i: int| 0 <= i < front.len() implies front[i] != 45 by {
        if i < low.len() {
            assert(front[i] == low[i]);
        }
    }
    text::parse_unsigned_reads_decimals(a, 9223372036854775807);
    text::parse_unsigned_reads_decimals(b, 9223372036854775807);
    hyphens_part_two_numbers(low, high, a, b);
    hyphens_part_two_numbers(front, back, a, b);
    assert(front + seq![45u8] + back =~= low + seq![32u8, 45, 32] + high);
}

/// A check is spelled `c`, with blanks around it or not, and in no other way; a part without a
/// hyphen says nothing else; and a blank around a part makes no difference.
pub proof fn checks_are_read(part: Seq<u8>)
    ensures
        text::trim(part) == seq![99u8] <==> rule_of(part) == Some(PaddingRule::Check),
        text::trim(part) != seq![99u8] && (forall|i: int|
            0 <= i < text::trim(part).len() ==> text::trim(part)[i] != 45) ==> rule_of(part) is None,
        rule_of(seq![32u8] + part) == rule_of(part),
        rule_of(part.push(32)) == rule_of(part),
{
    text::lemma_first_place(text::trim(part), 45);
    text::trim_ignores_blanks(part, 32, part);
}

/// Parts are read one by one and in order, and one that says nothing leaves no gap.
pub proof fn parts_are_read_in_order(a: Seq<Seq<u8>>, part: Seq<u8>, b: Seq<Seq<u8>>)
    ensures
        rules_of(a + b) == rules_of(a) + rules_of(b),
        rules_of(seq![part]) == (match rule_of(part) {
            Some(rule) => seq![rule],
            None => Seq::empty(),
        }),
    decreases b.len(),
{
    assert(seq![part].drop_last() =~= Seq::<Seq<u8>>::empty());
    assert(rules_of(Seq::<Seq<u8>>::empty()) =~= Seq::<PaddingRule>::empty());
    assert(rules_of(seq![part]) =~= (match rule_of(part) {
        Some(rule) => seq![rule],
        None => Seq::empty(),
    }));
    if b.len() == 0 {
        assert(a + b =~= a);
        assert(rules_of(a) + rules_of(b) =~= rules_of(a));
    } else {
        parts_are_read_in_order(a, part, b.drop_last());
        assert((a + b).drop_last() =~= a + b.drop_last());
        assert(rules_of(a + b) =~= rules_of(a) + rules_of(b));
    }
}

/// A packet is cut by the entry under its own number, whose parts stand between commas; without
/// one it is not cut.
pub proof fn packets_have_their_entries(raw: Seq<u8>, pkt: u32)
    ensures
        ({
            let scheme = types::settings_in(types::lines(raw));
            let key = text::decimal_text(pkt as nat);
            &&& !scheme.contains_key(key) ==> packet_rules(raw, pkt).len() == 0
            &&& scheme.contains_key(key) ==> packet_rules(raw, pkt) == rules_of(
                text::split_on(scheme[key], 44),
            )
        }),
{
}

/// A scheme says under `stop`, as a number of up to 32 bits, how many packets are padded.
pub proof fn stops_are_read(raw: Seq<u8>, n: nat)
    ensures
        ({
            let scheme = types::settings_in(types::lines(raw));
            let key = seq![115u8, 116, 111, 112];
            &&& !scheme.contains_key(key) ==> stop_of(raw) == Err::<u32, Error>(Error::MissingStop)
            &&& scheme.contains_key(key) && scheme[key] == text::decimal_text(n) && n <= 4294967295
                ==> stop_of(raw) == Ok::<u32, Error>(n as u32)
            &&& scheme.contains_key(key) && scheme[key] == text::decimal_text(n) && n > 4294967295
                ==> stop_of(raw) == Err::<u32, Error>(Error::InvalidStop)
            &&& scheme.contains_key(key) && text::parse_unsigned(scheme[key], 4294967295) is None
                ==> stop_of(raw) == Err::<u32, Error>(Error::InvalidStop)
        }),
{
    reveal_strlit("stop");
    is_ascii_chars_encode_utf8("stop"@);
    assert(encode_utf8("stop"@) =~= seq![115u8, 116, 111, 112]);
    text::parse_unsigned_reads_decimals(n, 4294967295);
}

/// A size is the number that was drawn, where it fits into 31 bits, and otherwise agrees with it
/// in 32 bits.
pub proof fn sizes_keep_their_bits(n: i64)
    ensures
        0 <= n <= 2147483647 ==> as_size(n) == n,
        (n - as_size(n)) % 4294967296 == 0,
{
}

/// A check becomes a check mark, and a size lies between its bounds, where these fit into 31
/// bits.
pub proof fn sizes_lie_between_bounds(size: i32, low: i64, high: i64)
    requires
        0 < low <= high <= 2147483647,
    ensures
        size_follows(size, PaddingRule::Check) <==> size == -1,
        size_follows(size, PaddingRule::Size(low, high)) <==> low <= size <= high,
{
    if low <= size <= high {
        assert(as_size(size as i64) == size);
    }
}

} // verus!
