//! IP addresses as text.
//!
//! An IPv4 address is four decimal numbers without leading zeros. An IPv6 address is eight
//! hexadecimal groups, of which one run may be left out as `::`, and of which the last two
//! may be written as an IPv4 address.

use vstd::prelude::*;
use vstd::slice::slice_subrange;

use crate::text;
use crate::util;

verus! {

// ------------------------------- grammar -------------------------------

/// One number of an IPv4 address: up to three digits, no leading zero, at most 255.
pub open spec fn is_octet(s: Seq<u8>) -> bool {
    &&& 1 <= s.len() <= 3
    &&& text::all_digits(s)
    &&& s.len() > 1 ==> s[0] != 48
    &&& text::digits_value(s) <= 255
}

/// The four bytes that a text spells as an IPv4 address.
pub open spec fn ipv4_value(s: Seq<u8>) -> Option<Seq<u8>> {
    let parts = text::split_on(s, 46);
    if parts.len() == 4 && is_octet(parts[0]) && is_octet(parts[1]) && is_octet(parts[2])
        && is_octet(parts[3]) {
        Some(
            seq![
                text::digits_value(parts[0]) as u8,
                text::digits_value(parts[1]) as u8,
                text::digits_value(parts[2]) as u8,
                text::digits_value(parts[3]) as u8,
            ],
        )
    } else {
        None
    }
}

/// One group of an IPv6 address: up to four hexadecimal digits.
pub open spec fn is_group(s: Seq<u8>) -> bool {
    1 <= s.len() <= 4 && text::all_hex_digits(s)
}

/// The bytes that groups spell.
pub open spec fn groups_value(parts: Seq<Seq<u8>>) -> Option<Seq<u8>>
    decreases parts.len(),
{
    if parts.len() == 0 {
        Some(Seq::empty())
    } else if is_group(parts.last()) {
        match groups_value(parts.drop_last()) {
            Some(front) => Some(
                front.push((text::hex_value(parts.last()) / 256) as u8).push(
                    (text::hex_value(parts.last()) % 256) as u8,
                ),
            ),
            None => None,
        }
    } else {
        None
    }
}

/// The bytes that one side of an IPv6 address spells: nothing, or groups between colons, of
/// which the last may be an IPv4 address where `v4` allows it.
pub open spec fn ipv6_side(s: Seq<u8>, v4: bool) -> Option<Seq<u8>> {
    let parts = text::split_on(s, 58);
    if s.len() == 0 {
        Some(Seq::empty())
    } else if v4 && ipv4_value(parts.last()) is Some {
        match groups_value(parts.drop_last()) {
            Some(front) => Some(front + ipv4_value(parts.last())->0),
            None => None,
        }
    } else {
        groups_value(parts)
    }
}

/// Two colons next to each other.
pub open spec fn colons_at(s: Seq<u8>, i: int) -> bool {
    s[i] == 58 && s[i + 1] == 58
}

/// The first place of a double colon, or the length where none occurs.
pub open spec fn gap_place(s: Seq<u8>) -> int
    decreases s.len(),
{
    if s.len() < 2 {
        s.len() as int
    } else if s[0] == 58 && s[1] == 58 {
        0
    } else {
        1 + gap_place(s.skip(1))
    }
}

/// The sixteen bytes that a text spells as an IPv6 address.
pub open spec fn ipv6_value(s: Seq<u8>) -> Option<Seq<u8>> {
    let p = gap_place(s);
    if p < s.len() {
        match (ipv6_side(s.take(p), false), ipv6_side(s.skip(p + 2), true)) {
            (Some(head), Some(tail)) => if head.len() + tail.len() <= 14 {
                Some(head + util::zeros((16 - head.len() - tail.len()) as nat) + tail)
            } else {
                None
            },
            _ => None,
        }
    } else {
        match ipv6_side(s, true) {
            Some(bytes) => if bytes.len() == 16 {
                Some(bytes)
            } else {
                None
            },
            None => None,
        }
    }
}

// ------------------------------- reading -------------------------------

fn read_octet(s: &[u8]) -> (r: Option<u8>)
    ensures
        match r {
            Some(v) => is_octet(s@) && v == text::digits_value(s@),
            None => !is_octet(s@),
        },
{
    let n: usize = s.len();
    if n < 1 || n > 3 {
        return None;
    }
    if n > 1 && s[0] == 48 {
        return None;
    }
    if s[0] == 43 {
        assert(!text::is_digit(s@[0]));
        return None;
    }
    match text::read_unsigned(s, 255) {
        Some(v) => Some(v as u8),
        None => None,
    }
}

/// Reads an IPv4 address.
pub fn read_ipv4(s: &[u8]) -> (r: Option<[u8; 4]>)
    ensures
        match r {
            Some(ip) => ipv4_value(s@) == Some(ip@),
            None => ipv4_value(s@) is None,
        },
{
    let parts = text::split_bytes(s, 46);
    let ghost pieces = text::split_on(s@, 46);
    assert(parts@.len() == pieces.len());
    if parts.len() != 4 {
        return None;
    }
    assert(parts@[0]@ == pieces[0]);
    assert(parts@[1]@ == pieces[1]);
    assert(parts@[2]@ == pieces[2]);
    assert(parts@[3]@ == pieces[3]);
    let a = read_octet(parts[0].as_slice());
    let b = read_octet(parts[1].as_slice());
    let c = read_octet(parts[2].as_slice());
    let d = read_octet(parts[3].as_slice());
    match (a, b, c, d) {
        (Some(a), Some(b), Some(c), Some(d)) => {
            let ip: [u8; 4] = [a, b, c, d];
            assert(ip@ =~= ipv4_value(s@)->0);
            Some(ip)
        },
        _ => None,
    }
}

fn read_group(s: &[u8]) -> (r: Option<u16>)
    ensures
        match r {
            Some(v) => is_group(s@) && v == text::hex_value(s@),
            None => !is_group(s@),
        },
{
    let n: usize = s.len();
    if n < 1 || n > 4 {
        return None;
    }
    let mut value: u32 = 0;
    let mut i: usize = 0;
    assert(s@.take(0) =~= Seq::<u8>::empty());
    while i < n
        invariant
            0 <= i <= n,
            n <= 4,
            n == s@.len(),
            text::all_hex_digits(s@.take(i as int)),
            value == text::hex_value(s@.take(i as int)),
            i == 0 ==> value == 0,
            i == 1 ==> value < 16,
            i == 2 ==> value < 256,
            i == 3 ==> value < 4096,
            i == 4 ==> value < 65536,
        decreases n - i,
    {
        let b: u8 = s[i];
        let d: u8 = if 48 <= b && b <= 57 {
            b - 48
        } else if 65 <= b && b <= 70 {
            b - 55
        } else if 97 <= b && b <= 102 {
            b - 87
        } else {
            assert(!text::is_hex_digit(s@[i as int]));
            return None;
        };
        assert(s@.take(i + 1).drop_last() =~= s@.take(i as int));
        value = value * 16 + d as u32;
        i = i + 1;
    }
    assert(s@.take(n as int) =~= s@);
    Some(value as u16)
}

/// If groups have a value, so has every beginning of them.
proof fn lemma_groups_prefix(parts: Seq<Seq<u8>>, i: int)
    requires
        0 <= i <= parts.len(),
        groups_value(parts.take(i)) is None,
    ensures
        groups_value(parts) is None,
    decreases parts.len(),
{
    if i < parts.len() {
        assert(parts.drop_last().take(i) =~= parts.take(i));
        lemma_groups_prefix(parts.drop_last(), i);
    } else {
        assert(parts.take(i) =~= parts);
    }
}

fn read_groups(parts: &Vec<Vec<u8>>, count: usize) -> (r: Option<Vec<u8>>)
    requires
        count <= parts@.len(),
    ensures
        match r {
            Some(bytes) => groups_value(text::views(parts@).take(count as int)) == Some(bytes@),
            None => groups_value(text::views(parts@).take(count as int)) is None,
        },
{
    let ghost pieces = text::views(parts@);
    let mut out: Vec<u8> = Vec::new();
    let mut i: usize = 0;
    assert(pieces.take(0) =~= Seq::<Seq<u8>>::empty());
    while i < count
        invariant
            0 <= i <= count <= parts@.len(),
            pieces == text::views(parts@),
            groups_value(pieces.take(i as int)) == Some(out@),
        decreases count - i,
    {
        let ghost longer = pieces.take(i + 1);
        assert(longer.drop_last() =~= pieces.take(i as int));
        assert(longer.last() == parts@[i as int]@);
        match read_group(parts[i].as_slice()) {
            Some(v) => {
                out.push((v / 256) as u8);
                out.push((v % 256) as u8);
            },
            None => {
                proof {
                    assert(pieces.take(count as int).take(i + 1) =~= longer);
                    lemma_groups_prefix(pieces.take(count as int), i + 1);
                }
                return None;
            },
        }
        i = i + 1;
    }
    Some(out)
}

fn read_ipv6_side(s: &[u8], v4: bool) -> (r: Option<Vec<u8>>)
    ensures
        match r {
            Some(bytes) => ipv6_side(s@, v4) == Some(bytes@),
            None => ipv6_side(s@, v4) is None,
        },
{
    if s.len() == 0 {
        return Some(Vec::new());
    }
    let parts = text::split_bytes(s, 58);
    let ghost pieces = text::split_on(s@, 58);
    proof {
        text::lemma_split_nonempty(s@, 58);
        assert(parts@.len() == pieces.len());
        assert(pieces.last() == parts@[parts@.len() - 1]@);
        assert(pieces.take(pieces.len() - 1) =~= pieces.drop_last());
        assert(pieces.take(pieces.len() as int) =~= pieces);
    }
    let n: usize = parts.len();
    if v4 {
        match read_ipv4(parts[n - 1].as_slice()) {
            Some(ip) => {
                return match read_groups(&parts, n - 1) {
                    Some(mut out) => {
                        let ghost front = out@;
                        out.push(ip[0]);
                        out.push(ip[1]);
                        out.push(ip[2]);
                        out.push(ip[3]);
                        assert(out@ =~= front + ip@);
                        Some(out)
                    },
                    None => None,
                };
            },
            None => {},
        }
    }
    read_groups(&parts, n)
}

/// Where `gap_place` points.
proof fn lemma_gap_place(s: Seq<u8>)
    ensures
        0 <= gap_place(s) <= s.len(),
        gap_place(s) < s.len() ==> gap_place(s) + 2 <= s.len() && s[gap_place(s)] == 58
            && s[gap_place(s) + 1] == 58,
        forall|i: int| 0 <= i < gap_place(s) && i + 1 < s.len() ==> !#[trigger] colons_at(s, i),
    decreases s.len(),
{
    if s.len() >= 2 && !(s[0] == 58 && s[1] == 58) {
        let t = s.skip(1);
        lemma_gap_place(t);
        assert forall|i: int| 0 <= i < gap_place(s) && i + 1 < s.len() implies !#[trigger] colons_at(s, i) by {
            if i > 0 {
                assert(!colons_at(t, i - 1));
                assert(t[i - 1] == s[i]);
                assert(t[i] == s[i + 1]);
            }
        }
    }
}

/// There is only one first double colon.
proof fn lemma_gap_place_unique(s: Seq<u8>, p: int)
    requires
        0 <= p <= s.len(),
        p < s.len() ==> p + 2 <= s.len() && s[p] == 58 && s[p + 1] == 58,
        forall|i: int| 0 <= i < p && i + 1 < s.len() ==> !#[trigger] colons_at(s, i),
    ensures
        gap_place(s) == p,
{
    lemma_gap_place(s);
    let q = gap_place(s);
    if q < p {
        assert(!colons_at(s, q));
    } else if p < q {
        assert(!colons_at(s, p));
    }
}

fn find_gap(s: &[u8]) -> (r: usize)
    ensures
        r == gap_place(s@),
{
    let n: usize = s.len();
    let mut i: usize = 0;
    while i < n
        invariant
            0 <= i <= n,
            n == s@.len(),
            forall|j: int| 0 <= j < i && j + 1 < n ==> !#[trigger] colons_at(s@, j),
        decreases n - i,
    {
        if n - i >= 2 && s[i] == 58 && s[i + 1] == 58 {
            proof {
                lemma_gap_place_unique(s@, i as int);
            }
            return i;
        }
        i = i + 1;
    }
    proof {
        lemma_gap_place_unique(s@, n as int);
    }
    n
}

fn sixteen(v: &Vec<u8>) -> (r: [u8; 16])
    requires
        v@.len() == 16,
    ensures
        r@ == v@,
{
    let r: [u8; 16] = [
        v[0],
        v[1],
        v[2],
        v[3],
        v[4],
        v[5],
        v[6],
        v[7],
        v[8],
        v[9],
        v[10],
        v[11],
        v[12],
        v[13],
        v[14],
        v[15],
    ];
    assert(r@ =~= v@);
    r
}

/// Reads an IPv6 address.
pub fn read_ipv6(s: &[u8]) -> (r: Option<[u8; 16]>)
    ensures
        match r {
            Some(ip) => ipv6_value(s@) == Some(ip@),
            None => ipv6_value(s@) is None,
        },
{
    let p: usize = find_gap(s);
    let n: usize = s.len();
    proof {
        lemma_gap_place(s@);
    }
    if p < n {
        let left: &[u8] = slice_subrange(s, 0, p);
        let right: &[u8] = slice_subrange(s, p + 2, n);
        assert(left@ =~= s@.take(p as int));
        assert(right@ =~= s@.skip(p + 2));
        match (read_ipv6_side(left, false), read_ipv6_side(right, true)) {
            (Some(mut head), Some(tail)) => {
                if head.len() > 14 || tail.len() > 14 - head.len() {
                    return None;
                }
                let ghost front = head@;
                let stop: usize = 16 - tail.len();
                while head.len() < stop
                    invariant
                        front.len() <= head@.len() <= stop,
                        stop <= 16,
                        head@ == front + util::zeros((head@.len() - front.len()) as nat),
                    decreases stop - head@.len(),
                {
                    let ghost before = head@;
                    head.push(0);
                    assert(head@ =~= front + util::zeros((head@.len() - front.len()) as nat));
                }
                let ghost padded = head@;
                let mut i: usize = 0;
                assert(tail@.take(0) =~= Seq::<u8>::empty());
                assert(padded + tail@.take(0) =~= padded);
                while i < tail.len()
                    invariant
                        0 <= i <= tail@.len(),
                        head@ == padded + tail@.take(i as int),
                    decreases tail@.len() - i,
                {
                    head.push(tail[i]);
                    assert(head@ =~= padded + tail@.take(i + 1));
                    i = i + 1;
                }
                assert(tail@.take(tail@.len() as int) =~= tail@);
                Some(sixteen(&head))
            },
            _ => None,
        }
    } else {
        match read_ipv6_side(s, true) {
            Some(bytes) => {
                if bytes.len() == 16 {
                    Some(sixteen(&bytes))
                } else {
                    None
                }
            },
            None => None,
        }
    }
}


// ------------------------------- spelling -------------------------------

/// How an IPv4 address is spelled.
pub open spec fn ipv4_text(ip: Seq<u8>) -> Seq<u8> {
    text::decimal_text(ip[0] as nat).push(46) + (text::decimal_text(ip[1] as nat).push(46) + (
    text::decimal_text(ip[2] as nat).push(46) + text::decimal_text(ip[3] as nat)))
}

/// The groups of an IPv6 address.
pub open spec fn groups_of(ip: Seq<u8>) -> Seq<nat> {
    Seq::new(8, |i: int| (ip[2 * i] * 256 + ip[2 * i + 1]) as nat)
}

/// Groups in hexadecimal, with colons between them.
pub open spec fn groups_text(groups: Seq<nat>) -> Seq<u8>
    decreases groups.len(),
{
    if groups.len() == 0 {
        Seq::empty()
    } else if groups.len() == 1 {
        text::hex_text(groups[0])
    } else {
        text::hex_text(groups[0]).push(58) + groups_text(groups.skip(1))
    }
}

/// How many groups from `i` on are zero, without a gap.
pub open spec fn zero_run(groups: Seq<nat>, i: int) -> int
    decreases groups.len() - i,
{
    if 0 <= i < groups.len() && groups[i] == 0 {
        1 + zero_run(groups, i + 1)
    } else {
        0
    }
}

/// The first of the longest zero runs that start before `n`.
pub open spec fn longest_zero_run(groups: Seq<nat>, n: int) -> int
    decreases n,
{
    if n <= 1 {
        0
    } else {
        let best = longest_zero_run(groups, n - 1);
        if zero_run(groups, n - 1) > zero_run(groups, best) {
            n - 1
        } else {
            best
        }
    }
}

/// An IPv6 address that stands for an IPv4 address.
pub open spec fn is_ipv4_mapped(ip: Seq<u8>) -> bool {
    &&& forall|i: int| 0 <= i < 10 ==> ip[i] == 0
    &&& ip[10] == 255
    &&& ip[11] == 255
}

/// How an IPv6 address is spelled: the first longest run of two or more zero groups as `::`,
/// and an address that stands for an IPv4 address with that address at its end.
pub open spec fn ipv6_text(ip: Seq<u8>) -> Seq<u8> {
    let groups = groups_of(ip);
    let start = longest_zero_run(groups, 8);
    let run = zero_run(groups, start);
    if is_ipv4_mapped(ip) {
        seq![58u8, 58, 102, 102, 102, 102, 58] + ipv4_text(ip.skip(12))
    } else if run > 1 {
        groups_text(groups.take(start)) + seq![58u8, 58] + groups_text(groups.skip(start + run))
    } else {
        groups_text(groups)
    }
}

/// A zero run ends within the groups.
proof fn lemma_zero_run(groups: Seq<nat>, i: int)
    requires
        0 <= i <= groups.len(),
    ensures
        0 <= zero_run(groups, i) <= groups.len() - i,
        forall|j: int| i <= j < i + zero_run(groups, i) ==> groups[j] == 0,
    decreases groups.len() - i,
{
    if i < groups.len() && groups[i] == 0 {
        lemma_zero_run(groups, i + 1);
    }
}

proof fn lemma_longest_zero_run(groups: Seq<nat>, n: int)
    ensures
        0 <= longest_zero_run(groups, n),
        n >= 1 ==> longest_zero_run(groups, n) < n,
    decreases n,
{
    if n > 1 {
        lemma_longest_zero_run(groups, n - 1);
    }
}

/// Spells an IPv4 address.
pub fn push_ipv4(out: &mut Vec<u8>, ip: &[u8; 4])
    ensures
        final(out)@ == old(out)@ + ipv4_text(ip@),
{
    text::push_decimal(out, ip[0] as u64);
    out.push(46);
    text::push_decimal(out, ip[1] as u64);
    out.push(46);
    text::push_decimal(out, ip[2] as u64);
    out.push(46);
    text::push_decimal(out, ip[3] as u64);
    assert(out@ =~= old(out)@ + ipv4_text(ip@));
}

fn push_groups(out: &mut Vec<u8>, groups: &Vec<u16>, from: usize, to: usize)
    requires
        from <= to <= groups@.len(),
    ensures
        final(out)@ == old(out)@ + groups_text(
            groups@.map_values(|g: u16| g as nat).subrange(from as int, to as int),
        ),
    decreases to - from,
{
    let ghost part = groups@.map_values(|g: u16| g as nat).subrange(from as int, to as int);
    if from < to {
        text::push_hex(out, groups[from]);
        if to - from > 1 {
            out.push(58);
            let ghost rest = groups@.map_values(|g: u16| g as nat).subrange(
                from + 1,
                to as int,
            );
            assert(rest =~= part.skip(1));
            push_groups(out, groups, from + 1, to);
        }
    }
    assert(out@ =~= old(out)@ + groups_text(part));
}

fn count_zeros(groups: &Vec<u16>, i: usize) -> (r: usize)
    requires
        i <= groups@.len(),
    ensures
        r == zero_run(groups@.map_values(|g: u16| g as nat), i as int),
        r <= groups@.len() - i,
    decreases groups@.len() - i,
{
    let ghost g = groups@.map_values(|g: u16| g as nat);
    proof {
        lemma_zero_run(g, i as int);
    }
    if i < groups.len() && groups[i] == 0 {
        1 + count_zeros(groups, i + 1)
    } else {
        0
    }
}

/// Spells an IPv6 address.
pub fn push_ipv6(out: &mut Vec<u8>, ip: &[u8; 16])
    ensures
        final(out)@ == old(out)@ + ipv6_text(ip@),
{
    let ghost groups_spec = groups_of(ip@);
    if ip[0] == 0 && ip[1] == 0 && ip[2] == 0 && ip[3] == 0 && ip[4] == 0 && ip[5] == 0 && ip[6]
        == 0 && ip[7] == 0 && ip[8] == 0 && ip[9] == 0 && ip[10] == 255 && ip[11] == 255 {
        assert(is_ipv4_mapped(ip@));
        out.push(58);
        out.push(58);
        out.push(102);
        out.push(102);
        out.push(102);
        out.push(102);
        out.push(58);
        let v4: [u8; 4] = [ip[12], ip[13], ip[14], ip[15]];
        assert(v4@ =~= ip@.skip(12));
        push_ipv4(out, &v4);
        assert(out@ =~= old(out)@ + ipv6_text(ip@));
        return ;
    }
    assert(!is_ipv4_mapped(ip@));
    let mut groups: Vec<u16> = Vec::new();
    let mut i: usize = 0;
    while i < 8
        invariant
            0 <= i <= 8,
            groups@.len() == i,
            forall|j: int| 0 <= j < i ==> groups@[j] == ip@[2 * j] * 256 + ip@[2 * j + 1],
        decreases 8 - i,
    {
        groups.push(ip[2 * i] as u16 * 256 + ip[2 * i + 1] as u16);
        i = i + 1;
    }
    let ghost g = groups@.map_values(|g: u16| g as nat);
    assert(g =~= groups_spec);
    let mut start: usize = 0;
    let mut run: usize = count_zeros(&groups, 0);
    let mut n: usize = 1;
    while n < 8
        invariant
            1 <= n <= 8,
            groups@.len() == 8,
            g == groups@.map_values(|g: u16| g as nat),
            start < n,
            start == longest_zero_run(g, n as int),
            run == zero_run(g, start as int),
            run <= 8 - start,
        decreases 8 - n,
    {
        let next: usize = count_zeros(&groups, n);
        if next > run {
            start = n;
            run = next;
        }
        n = n + 1;
    }
    if run > 1 {
        push_groups(out, &groups, 0, start);
        assert(g.subrange(0, start as int) =~= g.take(start as int));
        out.push(58);
        out.push(58);
        push_groups(out, &groups, start + run, 8);
        assert(g.subrange(start + run, 8) =~= g.skip(start + run));
    } else {
        push_groups(out, &groups, 0, 8);
        assert(g.subrange(0, 8) =~= g);
    }
    assert(out@ =~= old(out)@ + ipv6_text(ip@));
}

// ------------------------------- laws -------------------------------

/// A spelled number is one part of an IPv4 address.
proof fn lemma_octet_text(b: u8)
    ensures
        is_octet(text::decimal_text(b as nat)),
        text::digits_value(text::decimal_text(b as nat)) == b,
        forall|i: int|
            0 <= i < text::decimal_text(b as nat).len() ==> text::is_digit(
                #[trigger] text::decimal_text(b as nat)[i],
            ),
{
    text::lemma_decimal_text(b as nat);
    text::lemma_decimal_text_len(b as nat);
}

/// Reading a spelled IPv4 address gives it back.
pub proof fn ipv4_round_trip(ip: Seq<u8>)
    requires
        ip.len() == 4,
    ensures
        ipv4_value(ipv4_text(ip)) == Some(ip),
{
    let a = text::decimal_text(ip[0] as nat);
    let b = text::decimal_text(ip[1] as nat);
    let c = text::decimal_text(ip[2] as nat);
    let d = text::decimal_text(ip[3] as nat);
    lemma_octet_text(ip[0]);
    lemma_octet_text(ip[1]);
    lemma_octet_text(ip[2]);
    lemma_octet_text(ip[3]);
    text::lemma_split_single(a, 46);
    text::lemma_split_single(b, 46);
    text::lemma_split_single(c, 46);
    text::lemma_split_single(d, 46);
    text::lemma_split_join(c, 46, d);
    text::lemma_split_join(b, 46, c.push(46) + d);
    text::lemma_split_join(a, 46, b.push(46) + (c.push(46) + d));
    let parts = text::split_on(ipv4_text(ip), 46);
    assert(parts =~= seq![a, b, c, d]);
    assert(ipv4_value(ipv4_text(ip))->0 =~= ip);
}

/// What an IPv4 address is spelled with.
pub proof fn lemma_ipv4_text_bytes(ip: Seq<u8>)
    ensures
        ipv4_text(ip).len() >= 4,
        forall|i: int|
            0 <= i < ipv4_text(ip).len() ==> ipv4_text(ip)[i] == 46 || text::is_digit(
                #[trigger] ipv4_text(ip)[i],
            ),
{
    lemma_octet_text(ip[0]);
    lemma_octet_text(ip[1]);
    lemma_octet_text(ip[2]);
    lemma_octet_text(ip[3]);
    let t = ipv4_text(ip);
    let a = text::decimal_text(ip[0] as nat);
    let b = text::decimal_text(ip[1] as nat);
    let c = text::decimal_text(ip[2] as nat);
    let d = text::decimal_text(ip[3] as nat);
    assert forall|i: int| 0 <= i < t.len() implies t[i] == 46 || text::is_digit(#[trigger] t[i]) by {
        let b0 = a.len() as int;
        let b1 = b0 + 1 + b.len();
        let b2 = b1 + 1 + c.len();
        if i < b0 {
            assert(t[i] == a[i]);
        } else if i == b0 {
        } else if i < b1 {
            assert(t[i] == b[i - b0 - 1]);
        } else if i == b1 {
        } else if i < b2 {
            assert(t[i] == c[i - b1 - 1]);
        } else if i == b2 {
        } else {
            assert(t[i] == d[i - b2 - 1]);
        }
    }
}

/// The hexadecimal spellings of groups.
pub open spec fn group_pieces(groups: Seq<nat>) -> Seq<Seq<u8>> {
    groups.map_values(|g: nat| text::hex_text(g))
}

/// Spelled groups: their pieces, and no two colons next to each other nor at an end.
proof fn lemma_groups_text(groups: Seq<nat>)
    requires
        groups.len() > 0,
        forall|i: int| 0 <= i < groups.len() ==> groups[i] < 65536,
    ensures
        text::split_on(groups_text(groups), 58) == group_pieces(groups),
        groups_text(groups).len() > 0,
        groups_text(groups)[0] != 58,
        groups_text(groups).last() != 58,
        forall|i: int| 0 <= i && i + 1 < groups_text(groups).len() ==> !#[trigger] colons_at(
                groups_text(groups),
                i,
            ),
        forall|i: int|
            #![trigger groups_text(groups)[i]]
            0 <= i < groups_text(groups).len() ==> groups_text(groups)[i] == 58
                || text::is_hex_digit(groups_text(groups)[i]),
    decreases groups.len(),
{
    let h = text::hex_text(groups[0]);
    text::lemma_hex_text(groups[0]);
    text::lemma_split_single(h, 58);
    assert(text::is_hex_digit(h[0]));
    assert(text::is_hex_digit(h.last()));
    let t = groups_text(groups);
    if groups.len() == 1 {
        assert(group_pieces(groups) =~= seq![h]);
        assert forall|i: int| 0 <= i && i + 1 < t.len() implies !#[trigger] colons_at(t, i) by {
            assert(text::is_hex_digit(h[i]));
        }
    } else {
        let rest = groups.skip(1);
        let r = groups_text(rest);
        lemma_groups_text(rest);
        text::lemma_split_join(h, 58, r);
        assert(group_pieces(groups) =~= seq![h] + group_pieces(rest));
        assert(t == h.push(58) + r);
        assert(t.last() == r.last());
        assert(t[0] == h[0]);
        assert forall|i: int| 0 <= i && i + 1 < t.len() implies !#[trigger] colons_at(t, i) by {
            if i < h.len() {
                assert(t[i] == h[i]);
                assert(text::is_hex_digit(h[i]));
            } else if i == h.len() {
                assert(t[i + 1] == r[0]);
            } else {
                assert(!colons_at(r, i - h.len() - 1));
                assert(t[i] == r[i - h.len() - 1]);
                assert(t[i + 1] == r[i - h.len()]);
            }
        }
        assert forall|i: int| #![trigger t[i]] 0 <= i < t.len() implies t[i] == 58
            || text::is_hex_digit(t[i]) by {
            if i < h.len() {
                assert(t[i] == h[i]);
            } else if i > h.len() {
                assert(t[i] == r[i - h.len() - 1]);
            }
        }
    }
}

/// The bytes of groups.
pub open spec fn group_bytes(groups: Seq<nat>) -> Seq<u8> {
    Seq::new(
        2 * groups.len(),
        |i: int|
            if i % 2 == 0 {
                (groups[i / 2] / 256) as u8
            } else {
                (groups[i / 2] % 256) as u8
            },
    )
}

/// Spelled groups have the value of the groups.
proof fn lemma_group_pieces_value(groups: Seq<nat>)
    requires
        forall|i: int| 0 <= i < groups.len() ==> groups[i] < 65536,
    ensures
        groups_value(group_pieces(groups)) == Some(group_bytes(groups)),
    decreases groups.len(),
{
    let pieces = group_pieces(groups);
    if groups.len() > 0 {
        let front = groups.drop_last();
        lemma_group_pieces_value(front);
        assert(pieces.drop_last() =~= group_pieces(front));
        text::lemma_hex_text(groups.last());
        assert(pieces.last() == text::hex_text(groups.last()));
        assert(groups_value(pieces)->0 =~= group_bytes(groups));
    } else {
        assert(group_bytes(groups) =~= Seq::<u8>::empty());
    }
}

/// A side that is spelled in groups reads as those groups.
proof fn lemma_groups_side(groups: Seq<nat>, v4: bool)
    requires
        forall|i: int| 0 <= i < groups.len() ==> groups[i] < 65536,
    ensures
        ipv6_side(groups_text(groups), v4) == Some(group_bytes(groups)),
{
    lemma_group_pieces_value(groups);
    if groups.len() == 0 {
        assert(group_bytes(groups) =~= Seq::<u8>::empty());
    } else {
        lemma_groups_text(groups);
        let last = group_pieces(groups).last();
        assert(last == text::hex_text(groups.last()));
        text::lemma_hex_text(groups.last());
        assert forall|i: int| 0 <= i < last.len() implies last[i] != 46 by {
            assert(text::is_hex_digit(last[i]));
        }
        text::lemma_split_single(last, 46);
        assert(ipv4_value(last) is None);
    }
}

/// The groups of an address hold its bytes.
proof fn lemma_group_bytes(ip: Seq<u8>)
    requires
        ip.len() == 16,
    ensures
        group_bytes(groups_of(ip)) == ip,
        forall|i: int| 0 <= i < 8 ==> groups_of(ip)[i] < 65536,
{
    let g = groups_of(ip);
    assert forall|i: int| 0 <= i < 16 implies group_bytes(g)[i] == ip[i] by {
        let k = i / 2;
        assert(g[k] == ip[2 * k] * 256 + ip[2 * k + 1]);
    }
    assert(group_bytes(g) =~= ip);
}

/// The group that marks an address as standing for an IPv4 address.
proof fn lemma_mapped_group()
    ensures
        groups_value(seq![seq![102u8, 102, 102, 102]]) == Some(seq![255u8, 255]),
{
    let f = seq![102u8, 102, 102, 102];
    let f3 = seq![102u8, 102, 102];
    let f2 = seq![102u8, 102];
    let f1 = seq![102u8];
    assert(seq![f].drop_last() =~= Seq::<Seq<u8>>::empty());
    assert(f.drop_last() =~= f3);
    assert(f3.drop_last() =~= f2);
    assert(f2.drop_last() =~= f1);
    assert(f1.drop_last() =~= Seq::<u8>::empty());
    assert(text::hex_value(Seq::<u8>::empty()) == 0);
    assert(text::hex_value(f1) == 15);
    assert(text::hex_value(f2) == 255);
    assert(text::hex_value(f3) == 4095);
    assert(text::hex_value(f) == 65535);
    assert(groups_value(Seq::<Seq<u8>>::empty()) == Some(Seq::<u8>::empty()));
    assert(groups_value(seq![f])->0 =~= seq![255u8, 255]);
}

proof fn lemma_mapped_round_trip(ip: Seq<u8>)
    requires
        ip.len() == 16,
        is_ipv4_mapped(ip),
    ensures
        ipv6_value(ipv6_text(ip)) == Some(ip),
{
    let t = ipv6_text(ip);
    let v4 = ip.skip(12);
    let f = seq![102u8, 102, 102, 102];
    ipv4_round_trip(v4);
    lemma_ipv4_text_bytes(v4);
    assert(t[0] == 58 && t[1] == 58);
    lemma_gap_place_unique(t, 0);
    assert(t.take(0) =~= Seq::<u8>::empty());
    let tail = t.skip(2);
    assert(tail =~= f.push(58) + ipv4_text(v4));
    text::lemma_split_single(f, 58);
    assert forall|i: int| 0 <= i < ipv4_text(v4).len() implies ipv4_text(v4)[i] != 58 by {
        assert(ipv4_text(v4)[i] == 46 || text::is_digit(ipv4_text(v4)[i]));
    }
    text::lemma_split_single(ipv4_text(v4), 58);
    text::lemma_split_join(f, 58, ipv4_text(v4));
    let parts = text::split_on(tail, 58);
    assert(parts =~= seq![f, ipv4_text(v4)]);
    assert(parts.drop_last() =~= seq![f]);
    lemma_mapped_group();
    assert(ipv6_side(tail, true) == Some(seq![255u8, 255] + v4));
    assert(ipv6_value(t)->0 =~= ip);
}

/// Where the double colon stands between two sides.
proof fn lemma_gap_between(a: Seq<u8>, b: Seq<u8>)
    requires
        a.len() > 0 ==> a.last() != 58,
        forall|i: int| 0 <= i && i + 1 < a.len() ==> !#[trigger] colons_at(a, i),
    ensures
        gap_place(a + seq![58u8, 58] + b) == a.len(),
        (a + seq![58u8, 58] + b).take(a.len() as int) == a,
        (a + seq![58u8, 58] + b).skip(a.len() as int + 2) == b,
{
    let t = a + seq![58u8, 58] + b;
    let p = a.len() as int;
    assert(t[p] == 58 && t[p + 1] == 58);
    assert forall|i: int| 0 <= i < p && i + 1 < t.len() implies !#[trigger] colons_at(t, i) by {
        assert(t[i] == a[i]);
        if i + 1 < p {
            assert(!colons_at(a, i));
            assert(t[i + 1] == a[i + 1]);
        }
    }
    lemma_gap_place_unique(t, p);
    assert(t.take(p) =~= a);
    assert(t.skip(p + 2) =~= b);
}

/// Zero bytes fill the place of the groups that were left out.
#[verifier::rlimit(40)]
proof fn lemma_gap_bytes(ip: Seq<u8>, start: int, run: int)
    requires
        ip.len() == 16,
        0 <= start,
        run > 1,
        start + run <= 8,
        forall|k: int| start <= k < start + run ==> groups_of(ip)[k] == 0,
    ensures
        group_bytes(groups_of(ip).take(start)) + util::zeros((2 * run) as nat) + group_bytes(
            groups_of(ip).skip(start + run),
        ) == ip,
{
    let g = groups_of(ip);
    lemma_group_bytes(ip);
    let head = g.take(start);
    let rest = g.skip(start + run);
    let whole = group_bytes(head) + util::zeros((2 * run) as nat) + group_bytes(rest);
    assert(whole.len() == 16);
    assert forall|i: int| 0 <= i < 16 implies whole[i] == ip[i] by {
        assert(group_bytes(g)[i] == ip[i]);
        let k = i / 2;
        if k < start {
            assert(whole[i] == group_bytes(head)[i]);
            assert(head[k] == g[k]);
        } else if k < start + run {
            assert(whole[i] == 0);
            assert(g[k] == 0);
        } else {
            let j = i - 2 * (start + run);
            assert(whole[i] == group_bytes(rest)[j]);
            assert(rest[k - start - run] == g[k]);
            assert(j / 2 == k - start - run);
            assert(j % 2 == i % 2);
        }
    }
    assert(whole =~= ip);
}

/// The value of two sides with a double colon between them.
proof fn lemma_gap_value(a: Seq<u8>, b: Seq<u8>, head: Seq<u8>, tail: Seq<u8>)
    requires
        ipv6_side(a, false) == Some(head),
        ipv6_side(b, true) == Some(tail),
        head.len() + tail.len() <= 14,
        a.len() > 0 ==> a.last() != 58,
        forall|i: int| 0 <= i && i + 1 < a.len() ==> !#[trigger] colons_at(a, i),
    ensures
        ipv6_value(a + seq![58u8, 58] + b) == Some(
            head + util::zeros((16 - head.len() - tail.len()) as nat) + tail,
        ),
{
    lemma_gap_between(a, b);
}

proof fn lemma_gap_round_trip(ip: Seq<u8>, start: int, run: int)
    requires
        ip.len() == 16,
        0 <= start,
        run > 1,
        start + run <= 8,
        forall|k: int| start <= k < start + run ==> groups_of(ip)[k] == 0,
    ensures
        ipv6_value(
            groups_text(groups_of(ip).take(start)) + seq![58u8, 58] + groups_text(
                groups_of(ip).skip(start + run),
            ),
        ) == Some(ip),
{
    let g = groups_of(ip);
    let head = g.take(start);
    let rest = g.skip(start + run);
    assert(head.len() == start && rest.len() == 8 - start - run);
    assert(forall|i: int| 0 <= i < head.len() ==> head[i] < 65536) by {
        lemma_group_bytes(ip);
    }
    assert(forall|i: int| 0 <= i < rest.len() ==> rest[i] < 65536) by {
        lemma_group_bytes(ip);
    }
    lemma_groups_side(head, false);
    lemma_groups_side(rest, true);
    if head.len() > 0 {
        lemma_groups_text(head);
    } else {
        assert(groups_text(head).len() == 0);
    }
    lemma_gap_value(groups_text(head), groups_text(rest), group_bytes(head), group_bytes(rest));
    lemma_gap_bytes(ip, start, run);
}

/// Reading a spelled IPv6 address gives it back.
pub proof fn ipv6_round_trip(ip: Seq<u8>)
    requires
        ip.len() == 16,
    ensures
        ipv6_value(ipv6_text(ip)) == Some(ip),
{
    let g = groups_of(ip);
    let start = longest_zero_run(g, 8);
    let run = zero_run(g, start);
    lemma_longest_zero_run(g, 8);
    lemma_zero_run(g, start);
    if is_ipv4_mapped(ip) {
        lemma_mapped_round_trip(ip);
    } else if run > 1 {
        lemma_gap_round_trip(ip, start, run);
    } else {
        lemma_group_bytes(ip);
        lemma_groups_side(g, true);
        lemma_groups_text(g);
        lemma_gap_place_unique(groups_text(g), groups_text(g).len() as int);
    }
}

/// No text is an IPv4 address and an IPv6 address at once.
pub proof fn ipv4_is_not_ipv6(s: Seq<u8>)
    ensures
        !(ipv4_value(s) is Some && ipv6_value(s) is Some),
{
    if ipv4_value(s) is Some {
        text::lemma_split_digits(s, 46);
        lemma_gap_place_unique(s, s.len() as int);
        text::lemma_split_single(s, 58);
        assert(text::split_on(s, 58).drop_last() =~= Seq::<Seq<u8>>::empty());
    }
}

/// An IPv4 address is spelled in ASCII.
pub proof fn lemma_ipv4_text_ascii(ip: Seq<u8>)
    ensures
        forall|i: int| 0 <= i < ipv4_text(ip).len() ==> #[trigger] ipv4_text(ip)[i] < 128,
{
    lemma_ipv4_text_bytes(ip);
    assert forall|i: int| 0 <= i < ipv4_text(ip).len() implies #[trigger] ipv4_text(ip)[i] < 128 by {
        assert(ipv4_text(ip)[i] == 46 || text::is_digit(ipv4_text(ip)[i]));
    }
}

/// Groups are spelled in ASCII.
proof fn lemma_groups_text_ascii(groups: Seq<nat>)
    requires
        forall|i: int| 0 <= i < groups.len() ==> groups[i] < 65536,
    ensures
        forall|i: int| 0 <= i < groups_text(groups).len() ==> #[trigger] groups_text(groups)[i] < 128,
{
    if groups.len() > 0 {
        lemma_groups_text(groups);
    }
}

/// Two ASCII texts around a double colon are ASCII.
proof fn lemma_gap_ascii(a: Seq<u8>, b: Seq<u8>, t: Seq<u8>)
    requires
        t == a + seq![58u8, 58] + b,
        forall|i: int| 0 <= i < a.len() ==> #[trigger] a[i] < 128,
        forall|i: int| 0 <= i < b.len() ==> #[trigger] b[i] < 128,
    ensures
        forall|i: int| 0 <= i < t.len() ==> #[trigger] t[i] < 128,
{
}

/// An IPv6 address is spelled in ASCII.
pub proof fn lemma_ipv6_text_ascii(ip: Seq<u8>)
    requires
        ip.len() == 16,
    ensures
        forall|i: int| 0 <= i < ipv6_text(ip).len() ==> #[trigger] ipv6_text(ip)[i] < 128,
{
    let g = groups_of(ip);
    let start = longest_zero_run(g, 8);
    let run = zero_run(g, start);
    assert(g.len() == 8);
    assert(forall|i: int| 0 <= i < 8 ==> g[i] < 65536) by {
        lemma_group_bytes(ip);
    }
    if is_ipv4_mapped(ip) {
        lemma_ipv4_text_ascii(ip.skip(12));
    } else if run > 1 {
        lemma_longest_zero_run(g, 8);
        assert(start + run <= 8) by {
            lemma_zero_run(g, start);
        }
        lemma_groups_text_ascii(g.take(start));
        lemma_groups_text_ascii(g.skip(start + run));
        lemma_gap_ascii(groups_text(g.take(start)), groups_text(g.skip(start + run)), ipv6_text(ip));
    } else {
        lemma_groups_text_ascii(g);
    }
}

/// Four numbers with dots between them are an IPv4 address where none exceeds 255, and its bytes
/// are the numbers.
pub proof fn dotted_numbers_are_ipv4(a: nat, b: nat, c: nat, d: nat)
    ensures
        ({
            let s = text::decimal_text(a) + seq![46u8] + text::decimal_text(b) + seq![46u8]
                + text::decimal_text(c) + seq![46u8] + text::decimal_text(d);
            &&& a <= 255 && b <= 255 && c <= 255 && d <= 255 ==> ipv4_value(s) == Some(
                seq![a as u8, b as u8, c as u8, d as u8],
            )
            &&& a > 255 || b > 255 || c > 255 || d > 255 ==> ipv4_value(s) is None
        }),
{
    let ta = text::decimal_text(a);
    let tb = text::decimal_text(b);
    let tc = text::decimal_text(c);
    let td = text::decimal_text(d);
    let s = ta + seq![46u8] + tb + seq![46u8] + tc + seq![46u8] + td;
    lemma_decimal_piece(a);
    lemma_decimal_piece(b);
    lemma_decimal_piece(c);
    lemma_decimal_piece(d);
    text::lemma_split_join(tc, 46, td);
    text::lemma_split_join(tb, 46, tc.push(46) + td);
    text::lemma_split_join(ta, 46, tb.push(46) + (tc.push(46) + td));
    assert(s =~= ta.push(46) + (tb.push(46) + (tc.push(46) + td)));
    let parts = text::split_on(s, 46);
    assert(parts =~= seq![ta, tb, tc, td]);
    if a <= 255 && b <= 255 && c <= 255 && d <= 255 {
        assert(ipv4_value(s)->0 =~= seq![a as u8, b as u8, c as u8, d as u8]);
    }
}

/// A spelled number is a piece between dots, and part of an address where it is small enough.
proof fn lemma_decimal_piece(n: nat)
    ensures
        text::split_on(text::decimal_text(n), 46) == seq![text::decimal_text(n)],
        is_octet(text::decimal_text(n)) == (n <= 255),
        text::digits_value(text::decimal_text(n)) == n,
{
    let t = text::decimal_text(n);
    text::lemma_decimal_text(n);
    text::lemma_decimal_text_len(n);
    assert forall|i: int| 0 <= i < t.len() implies t[i] != 46 by {
        assert(text::is_digit(t[i]));
    }
    text::lemma_split_single(t, 46);
}

/// An IPv4 address has one spelling: what is read as one is spelled like it.
pub proof fn ipv4_has_one_spelling(s: Seq<u8>)
    ensures
        ipv4_value(s) matches Some(ip) ==> ip.len() == 4 && ipv4_text(ip) == s,
{
    if ipv4_value(s) is Some {
        let ip = ipv4_value(s)->0;
        let parts = text::split_on(s, 46);
        text::pieces_make_up_the_text(s, 46);
        text::digits_spell_one_number(parts[0]);
        text::digits_spell_one_number(parts[1]);
        text::digits_spell_one_number(parts[2]);
        text::digits_spell_one_number(parts[3]);
        let three = parts.drop_last();
        let two = three.drop_last();
        let one = two.drop_last();
        assert(text::joined(one, 46) == parts[0]);
        assert(text::joined(two, 46) == text::joined(one, 46).push(46) + parts[1]);
        assert(text::joined(three, 46) == text::joined(two, 46).push(46) + parts[2]);
        assert(text::joined(parts, 46) == text::joined(three, 46).push(46) + parts[3]);
        assert(ipv4_text(ip) =~= s);
    }
}

/// Groups are spelled in hexadecimal with colons between them.
pub proof fn groups_are_spelled_with_colons(group: nat, rest: Seq<nat>)
    ensures
        groups_text(Seq::empty()).len() == 0,
        groups_text(seq![group]) == text::hex_text(group),
        rest.len() > 0 ==> groups_text(seq![group] + rest) == text::hex_text(group) + seq![58u8]
            + groups_text(rest),
{
    assert((seq![group] + rest).skip(1) =~= rest);
    if rest.len() > 0 {
        assert(groups_text(seq![group] + rest) =~= text::hex_text(group) + seq![58u8] + groups_text(
            rest,
        ));
    }
}

/// The bytes of an IPv6 address are its groups, the high byte of each first.
pub open spec fn has_group(ip: Seq<u8>, i: int, group: nat) -> bool {
    ip[2 * i] * 256 + ip[2 * i + 1] == group
}

/// Eight groups are an IPv6 address; more or fewer are none.
pub proof fn eight_groups_are_ipv6(groups: Seq<nat>)
    requires
        forall|i: int| 0 <= i < groups.len() ==> groups[i] < 65536,
    ensures
        groups.len() != 8 ==> ipv6_value(groups_text(groups)) is None,
        groups.len() == 8 ==> {
            &&& ipv6_value(groups_text(groups)) matches Some(ip)
            &&& ip.len() == 16
            &&& forall|i: int| 0 <= i < 8 ==> #[trigger] has_group(ip, i, groups[i])
        },
{
    let t = groups_text(groups);
    lemma_groups_side(groups, true);
    if groups.len() > 0 {
        lemma_groups_text(groups);
    }
    lemma_gap_place_unique(t, t.len() as int);
    assert(group_bytes(groups).len() == 2 * groups.len());
    if groups.len() == 8 {
        let ip = group_bytes(groups);
        assert forall|i: int| 0 <= i < 8 implies #[trigger] has_group(ip, i, groups[i]) by {
            assert((2 * i) / 2 == i && (2 * i) % 2 == 0);
            assert((2 * i + 1) / 2 == i && (2 * i + 1) % 2 == 1);
        }
    }
}

/// A double colon stands for the zero groups that are missing, be they in front, behind or in
/// between, and for one of them at least.
pub proof fn double_colons_are_filled(head: Seq<nat>, tail: Seq<nat>)
    requires
        forall|i: int| 0 <= i < head.len() ==> head[i] < 65536,
        forall|i: int| 0 <= i < tail.len() ==> tail[i] < 65536,
    ensures
        ({
            let s = groups_text(head) + seq![58u8, 58] + groups_text(tail);
            let n = head.len() as int;
            let m = 8 - tail.len();
            &&& n >= m ==> ipv6_value(s) is None
            &&& n < m ==> {
                &&& ipv6_value(s) matches Some(ip)
                &&& ip.len() == 16
                &&& forall|i: int| 0 <= i < n ==> #[trigger] has_group(ip, i, head[i])
                &&& forall|i: int| n <= i < m ==> #[trigger] has_group(ip, i, 0)
                &&& forall|i: int| m <= i < 8 ==> #[trigger] has_group(ip, i, tail[i - m])
            }
        }),
{
    let a = groups_text(head);
    let b = groups_text(tail);
    let n = head.len() as int;
    let m = 8 - tail.len();
    lemma_groups_side(head, false);
    lemma_groups_side(tail, true);
    if n > 0 {
        lemma_groups_text(head);
    } else {
        assert(a.len() == 0);
    }
    lemma_gap_between(a, b);
    if n < m {
        let front = group_bytes(head);
        let back = group_bytes(tail);
        lemma_gap_value(a, b, front, back);
        let ip = front + util::zeros((16 - front.len() - back.len()) as nat) + back;
        assert forall|i: int| 0 <= i < n implies #[trigger] has_group(ip, i, head[i]) by {
            assert((2 * i) / 2 == i && (2 * i) % 2 == 0);
            assert((2 * i + 1) / 2 == i && (2 * i + 1) % 2 == 1);
            assert(ip[2 * i] == front[2 * i] && ip[2 * i + 1] == front[2 * i + 1]);
        }
        assert forall|i: int| n <= i < m implies #[trigger] has_group(ip, i, 0) by {
            assert(ip[2 * i] == 0 && ip[2 * i + 1] == 0);
        }
        assert forall|i: int| m <= i < 8 implies #[trigger] has_group(ip, i, tail[i - m]) by {
            let k = i - m;
            assert((2 * k) / 2 == k && (2 * k) % 2 == 0);
            assert((2 * k + 1) / 2 == k && (2 * k + 1) % 2 == 1);
            assert(ip[2 * i] == back[2 * k] && ip[2 * i + 1] == back[2 * k + 1]);
        }
    }
}

/// What is read as an IPv6 address has sixteen bytes.
pub proof fn ipv6_has_sixteen_bytes(s: Seq<u8>)
    ensures
        ipv6_value(s) matches Some(ip) ==> ip.len() == 16,
{
}

/// Zero groups from a place on.
pub open spec fn zeros_from(ip: Seq<u8>, start: int, run: int) -> bool {
    &&& 0 <= start
    &&& start + run <= 8
    &&& forall|k: int| start <= k < start + run ==> #[trigger] has_group(ip, k, 0)
}

/// How an IPv6 address is spelled: its longest run of zero groups, the first of several, is left
/// out for a double colon, if it is of two groups or more.
pub proof fn longest_zeros_are_left_out(ip: Seq<u8>, start: int, run: int)
    requires
        ip.len() == 16,
        !is_ipv4_mapped(ip),
        zeros_from(ip, start, run),
        run > 1,
        forall|s: int, r: int|
            #[trigger] zeros_from(ip, s, r) ==> r <= run && (r == run ==> start <= s),
    ensures
        ipv6_text(ip) == groups_text(groups_of(ip).take(start)) + seq![58u8, 58] + groups_text(
            groups_of(ip).skip(start + run),
        ),
{
    let g = groups_of(ip);
    let p = longest_zero_run(g, 8);
    lemma_longest_zero_run(g, 8);
    lemma_zero_run(g, p);
    assert(zeros_from(ip, p, zero_run(g, p))) by {
        assert forall|k: int| p <= k < p + zero_run(g, p) implies #[trigger] has_group(ip, k, 0) by {
            assert(g[k] == 0);
        }
    }
    assert forall|k: int| start <= k < start + run implies g[k] == 0 by {
        assert(has_group(ip, k, 0));
    }
    lemma_run_reaches(g, start, run);
    lemma_longest_is_longest(g, 8, start);
    lemma_zero_run(g, start);
    assert(zeros_from(ip, start, zero_run(g, start))) by {
        assert forall|k: int| start <= k < start + zero_run(g, start) implies #[trigger] has_group(
            ip,
            k,
            0,
        ) by {
            assert(g[k] == 0);
        }
    }
}

/// An IPv6 address without two zero groups next to each other is spelled in full.
pub proof fn other_groups_are_spelled_out(ip: Seq<u8>)
    requires
        ip.len() == 16,
        !is_ipv4_mapped(ip),
        forall|s: int| !#[trigger] zeros_from(ip, s, 2),
    ensures
        ipv6_text(ip) == groups_text(groups_of(ip)),
{
    let g = groups_of(ip);
    let p = longest_zero_run(g, 8);
    lemma_longest_zero_run(g, 8);
    lemma_zero_run(g, p);
    if zero_run(g, p) > 1 {
        assert(zeros_from(ip, p, 2)) by {
            assert forall|k: int| p <= k < p + 2 implies #[trigger] has_group(ip, k, 0) by {
                assert(g[k] == 0);
            }
        }
    }
}

/// An IPv6 address that stands for an IPv4 address is spelled with that address.
pub proof fn mapped_addresses_show_ipv4(ip: Seq<u8>)
    requires
        ip.len() == 16,
        forall|i: int| 0 <= i < 10 ==> ip[i] == 0,
        ip[10] == 255,
        ip[11] == 255,
    ensures
        ipv6_text(ip) == seq![58u8, 58, 102, 102, 102, 102, 58] + ipv4_text(
            seq![ip[12], ip[13], ip[14], ip[15]],
        ),
{
    assert(ip.skip(12) =~= seq![ip[12], ip[13], ip[14], ip[15]]);
}

/// The groups of an address are its pairs of bytes.
pub proof fn groups_are_pairs(ip: Seq<u8>, i: int)
    requires
        0 <= i < 8,
    ensures
        groups_of(ip).len() == 8,
        groups_of(ip)[i] == ip[2 * i] * 256 + ip[2 * i + 1],
{
}

/// A run of zeros is counted to its end.
proof fn lemma_run_reaches(groups: Seq<nat>, i: int, run: int)
    requires
        0 <= i,
        0 <= run,
        i + run <= groups.len(),
        forall|k: int| i <= k < i + run ==> groups[k] == 0,
    ensures
        zero_run(groups, i) >= run,
    decreases run,
{
    if run > 0 {
        lemma_run_reaches(groups, i + 1, run - 1);
    } else {
        lemma_zero_run(groups, i);
    }
}

/// No run is longer than the longest, and none before it is as long.
proof fn lemma_longest_is_longest(groups: Seq<nat>, n: int, i: int)
    requires
        0 <= i < n,
    ensures
        zero_run(groups, longest_zero_run(groups, n)) >= zero_run(groups, i),
        i < longest_zero_run(groups, n) ==> zero_run(groups, longest_zero_run(groups, n))
            > zero_run(groups, i),
    decreases n,
{
    if n > 1 {
        lemma_longest_zero_run(groups, n - 1);
        if i < n - 1 {
            lemma_longest_is_longest(groups, n - 1, i);
        } else {
            lemma_longest_is_longest(groups, n - 1, 0);
        }
    }
}

/// The last two groups may be spelled as an IPv4 address, with a double colon before them or
/// without.
pub proof fn ipv4_may_end_ipv6(head: Seq<nat>, tail: Seq<nat>, ip: Seq<u8>)
    requires
        ip.len() == 4,
        tail.len() > 0,
        forall|i: int| 0 <= i < head.len() ==> head[i] < 65536,
        forall|i: int| 0 <= i < tail.len() ==> tail[i] < 65536,
    ensures
        ({
            let end = groups_text(tail) + seq![58u8] + ipv4_text(ip);
            let bytes = group_bytes(tail) + ip;
            &&& tail.len() == 6 ==> ipv6_value(end) == Some(bytes)
            &&& tail.len() != 6 ==> ipv6_value(end) is None
            &&& head.len() + tail.len() <= 5 ==> ipv6_value(
                groups_text(head) + seq![58u8, 58] + end,
            ) == Some(
                group_bytes(head) + util::zeros((12 - 2 * head.len() - 2 * tail.len()) as nat)
                    + bytes,
            )
            &&& head.len() + tail.len() > 5 ==> ipv6_value(
                groups_text(head) + seq![58u8, 58] + end,
            ) is None
        }),
{
    let a = groups_text(head);
    let b = groups_text(tail);
    let v4 = ipv4_text(ip);
    let end = b + seq![58u8] + v4;
    lemma_groups_text(tail);
    lemma_group_pieces_value(tail);
    lemma_groups_side(head, false);
    lemma_ipv4_text_bytes(ip);
    ipv4_round_trip(ip);
    assert forall|i: int| 0 <= i < v4.len() implies v4[i] != 58 by {
        assert(v4[i] == 46 || text::is_digit(v4[i]));
    }
    text::lemma_split_single(v4, 58);
    text::lemma_split_join(b, 58, v4);
    assert(end =~= b.push(58) + v4);
    let parts = text::split_on(end, 58);
    assert(parts =~= group_pieces(tail).push(v4));
    assert(parts.drop_last() =~= group_pieces(tail));
    assert(ipv6_side(end, true) == Some(group_bytes(tail) + ip));
    assert forall|i: int| 0 <= i < end.len() && i + 1 < end.len() implies !#[trigger] colons_at(
        end,
        i,
    ) by {
        if i + 1 < b.len() {
            assert(!colons_at(b, i));
            assert(end[i] == b[i] && end[i + 1] == b[i + 1]);
        } else if i < b.len() {
            assert(end[i] == b.last());
        } else {
            assert(end[i + 1] == v4[i - b.len()]);
        }
    }
    lemma_gap_place_unique(end, end.len() as int);
    if head.len() > 0 {
        lemma_groups_text(head);
    } else {
        assert(a.len() == 0);
    }
    lemma_gap_between(a, end);
}

/// Spelled groups start with a hexadecimal digit.
proof fn lemma_groups_start(groups: Seq<nat>)
    requires
        groups.len() > 0,
    ensures
        groups_text(groups).len() > 0,
        text::is_hex_digit(groups_text(groups)[0]),
{
    let h = text::hex_text(groups[0]);
    text::lemma_hex_text(groups[0]);
    assert(text::is_hex_digit(h[0]));
    assert(groups_text(groups)[0] == h[0]);
}

/// An IPv6 address is spelled with a hexadecimal digit or a colon in front.
pub proof fn ipv6_starts_with_a_digit_or_colon(ip: Seq<u8>)
    requires
        ip.len() == 16,
    ensures
        ipv6_text(ip).len() > 0,
        text::is_hex_digit(ipv6_text(ip)[0]) || ipv6_text(ip)[0] == 58,
{
    let g = groups_of(ip);
    let start = longest_zero_run(g, 8);
    let run = zero_run(g, start);
    assert(0 <= start < 8) by {
        lemma_longest_zero_run(g, 8);
    }
    if !is_ipv4_mapped(ip) && run > 1 {
        let head = g.take(start);
        if start > 0 {
            lemma_groups_start(head);
            assert(ipv6_text(ip)[0] == groups_text(head)[0]);
        } else {
            assert(groups_text(head).len() == 0);
            assert(ipv6_text(ip)[0] == 58);
        }
    } else if !is_ipv4_mapped(ip) {
        lemma_groups_start(g);
    }
}

/// Groups that are read have each one to four digits.
proof fn lemma_groups_are_groups(parts: Seq<Seq<u8>>, k: int)
    requires
        groups_value(parts) is Some,
        0 <= k < parts.len(),
    ensures
        is_group(parts[k]),
    decreases parts.len(),
{
    if k < parts.len() - 1 {
        lemma_groups_are_groups(parts.drop_last(), k);
    }
}

/// A side that is read is made of groups, but for an IPv4 address at its end.
proof fn lemma_side_pieces(s: Seq<u8>, v4: bool, k: int)
    requires
        ipv6_side(s, v4) is Some,
        s.len() > 0,
        0 <= k < text::split_on(s, 58).len(),
    ensures
        ({
            let parts = text::split_on(s, 58);
            ||| is_group(parts[k])
            ||| v4 && k == parts.len() - 1 && ipv4_value(parts[k]) is Some
        }),
{
    let parts = text::split_on(s, 58);
    if v4 && ipv4_value(parts.last()) is Some {
        if k < parts.len() - 1 {
            lemma_groups_are_groups(parts.drop_last(), k);
        }
    } else {
        lemma_groups_are_groups(parts, k);
    }
}

/// An empty text is no IPv4 address.
proof fn lemma_empty_is_not_ipv4(s: Seq<u8>)
    requires
        s.len() == 0,
    ensures
        ipv4_value(s) is None,
{
}

/// A side with an empty piece is not read.
proof fn lemma_no_empty_piece(s: Seq<u8>, v4: bool, k: int)
    requires
        s.len() > 0,
        0 <= k < text::split_on(s, 58).len(),
        text::split_on(s, 58)[k].len() == 0,
    ensures
        ipv6_side(s, v4) is None,
{
    if ipv6_side(s, v4) is Some {
        lemma_side_pieces(s, v4, k);
        lemma_empty_is_not_ipv4(text::split_on(s, 58)[k]);
    }
}

/// The pieces around two colons next to each other.
proof fn lemma_split_at_colons(s: Seq<u8>, i: int)
    requires
        0 <= i,
        i + 1 < s.len(),
        colons_at(s, i),
    ensures
        text::split_on(s, 58) == text::split_on(s.take(i), 58) + seq![Seq::<u8>::empty()]
            + text::split_on(s.skip(i + 2), 58),
{
    let a = s.take(i);
    let b = s.skip(i + 2);
    let none = Seq::<u8>::empty();
    text::lemma_split_join(none, 58, b);
    text::lemma_split_join(a, 58, none.push(58) + b);
    assert(s =~= a.push(58) + (none.push(58) + b));
    assert(text::split_on(none, 58) =~= seq![none]);
    assert(text::split_on(s, 58) =~= text::split_on(a, 58) + seq![none] + text::split_on(b, 58));
}

/// Between its colons an IPv6 address holds one to four hexadecimal digits, or nothing next to a
/// double colon, or an IPv4 address at its end.
pub proof fn ipv6_groups_are_short(s: Seq<u8>, k: int)
    requires
        ipv6_value(s) is Some,
        0 <= k < text::split_on(s, 58).len(),
    ensures
        ({
            let parts = text::split_on(s, 58);
            let piece = parts[k];
            ||| piece.len() == 0 && (exists|i: int| 0 <= i && i + 1 < s.len() && colons_at(s, i))
            ||| 1 <= piece.len() <= 4 && (forall|j: int|
                0 <= j < piece.len() ==> 48 <= #[trigger] piece[j] <= 57 || 65 <= piece[j] <= 70
                    || 97 <= piece[j] <= 102)
            ||| k == parts.len() - 1 && ipv4_value(piece) is Some
        }),
{
    let parts = text::split_on(s, 58);
    let p = gap_place(s);
    lemma_gap_place(s);
    if p < s.len() {
        let a = s.take(p);
        let b = s.skip(p + 2);
        let left = text::split_on(a, 58);
        let right = text::split_on(b, 58);
        assert(colons_at(s, p));
        lemma_split_at_colons(s, p);
        if k < left.len() {
            assert(parts[k] == left[k]);
            if a.len() > 0 {
                lemma_side_pieces(a, false, k);
                lemma_group_digits(parts[k]);
            } else {
                assert(left =~= seq![Seq::<u8>::empty()]);
            }
        } else if k > left.len() {
            let j = k - left.len() - 1;
            assert(parts[k] == right[j]);
            if b.len() > 0 {
                lemma_side_pieces(b, true, j);
                if is_group(parts[k]) {
                    lemma_group_digits(parts[k]);
                }
            } else {
                assert(right =~= seq![Seq::<u8>::empty()]);
            }
        } else {
            assert(parts[k].len() == 0);
        }
    } else {
        if s.len() == 0 {
            assert(ipv6_side(s, true) == Some(Seq::<u8>::empty()));
        } else {
            lemma_side_pieces(s, true, k);
            if is_group(parts[k]) {
                lemma_group_digits(parts[k]);
            }
        }
    }
}

/// The digits of a group.
proof fn lemma_group_digits(s: Seq<u8>)
    requires
        is_group(s),
    ensures
        1 <= s.len() <= 4,
        forall|j: int|
            0 <= j < s.len() ==> 48 <= #[trigger] s[j] <= 57 || 65 <= s[j] <= 70 || 97 <= s[j] <= 102,
{
    assert forall|j: int| 0 <= j < s.len() implies 48 <= #[trigger] s[j] <= 57 || 65 <= s[j] <= 70
        || 97 <= s[j] <= 102 by {
        assert(text::is_hex_digit(s[j]));
    }
}

/// An IPv6 address holds at most one double colon, and no three colons in a row.
pub proof fn one_double_colon_at_most(s: Seq<u8>, i: int, j: int)
    requires
        0 <= i < j,
        j + 1 < s.len(),
        s[i] == 58 && s[i + 1] == 58,
        s[j] == 58 && s[j + 1] == 58,
    ensures
        ipv6_value(s) is None,
{
    let p = gap_place(s);
    lemma_gap_place(s);
    assert(colons_at(s, i) && colons_at(s, j));
    assert(p <= i);
    let b = s.skip(p + 2);
    if j == p + 1 {
        let rest = b.skip(1);
        assert(b[0] == s[p + 2]);
        text::lemma_split_join(Seq::empty(), 58, rest);
        assert(b =~= Seq::<u8>::empty().push(58) + rest);
        assert(text::split_on(Seq::<u8>::empty(), 58) =~= seq![Seq::<u8>::empty()]);
        assert(text::split_on(b, 58)[0].len() == 0);
        lemma_no_empty_piece(b, true, 0);
    } else {
        let q = j - p - 2;
        assert(b[q] == s[j] && b[q + 1] == s[j + 1]);
        assert(colons_at(b, q));
        lemma_split_at_colons(b, q);
        let k = text::split_on(b.take(q), 58).len() as int;
        assert(text::split_on(b, 58)[k].len() == 0);
        lemma_no_empty_piece(b, true, k);
    }
}

/// A text of one to four hexadecimal digits of either case.
pub open spec fn is_hex_piece(s: Seq<u8>) -> bool {
    &&& 1 <= s.len() <= 4
    &&& forall|i: int|
        0 <= i < s.len() ==> 48 <= #[trigger] s[i] <= 57 || 65 <= s[i] <= 70 || 97 <= s[i] <= 102
}

/// Pieces of hexadecimal digits are read as groups.
proof fn lemma_hex_pieces(parts: Seq<Seq<u8>>)
    requires
        forall|i: int| 0 <= i < parts.len() ==> is_hex_piece(#[trigger] parts[i]),
    ensures
        groups_value(parts) is Some,
        groups_value(parts)->0.len() == 2 * parts.len(),
        forall|i: int|
            0 <= i < parts.len() ==> #[trigger] has_group(
                groups_value(parts)->0,
                i,
                text::hex_value(parts[i]),
            ),
    decreases parts.len(),
{
    if parts.len() > 0 {
        let front = parts.drop_last();
        assert forall|i: int| 0 <= i < front.len() implies is_hex_piece(#[trigger] front[i]) by {
            assert(front[i] == parts[i]);
        }
        lemma_hex_pieces(front);
        let last = parts[parts.len() - 1];
        assert(is_hex_piece(last));
        assert(is_group(last)) by {
            assert forall|i: int| 0 <= i < last.len() implies text::is_hex_digit(
                #[trigger] last[i],
            ) by {}
        }
        lemma_hex_piece_value(last);
        let before = groups_value(front)->0;
        let whole = groups_value(parts)->0;
        assert forall|i: int| 0 <= i < parts.len() implies #[trigger] has_group(
            whole,
            i,
            text::hex_value(parts[i]),
        ) by {
            if i < front.len() {
                assert(has_group(before, i, text::hex_value(front[i])));
                assert(whole[2 * i] == before[2 * i] && whole[2 * i + 1] == before[2 * i + 1]);
                assert(front[i] == parts[i]);
            }
        }
    }
}

/// Four digits are worth less than 65536.
proof fn lemma_hex_piece_value(s: Seq<u8>)
    requires
        is_hex_piece(s),
    ensures
        text::hex_value(s) < 65536,
{
    reveal_with_fuel(text::hex_value, 5);
    let a = s.drop_last();
    let b = a.drop_last();
    let c = b.drop_last();
    assert(text::hex_digit_value(s.last()) < 16);
    if s.len() > 1 {
        assert(a.last() == s[s.len() - 2]);
    }
    if s.len() > 2 {
        assert(b.last() == s[s.len() - 3]);
    }
    if s.len() > 3 {
        assert(c.last() == s[0]);
    }
}

/// Pieces of hexadecimal digits hold no colons, and make up a text without double colons.
proof fn lemma_hex_pieces_text(parts: Seq<Seq<u8>>)
    requires
        parts.len() > 0,
        forall|i: int| 0 <= i < parts.len() ==> is_hex_piece(#[trigger] parts[i]),
    ensures
        text::split_on(text::joined(parts, 58), 58) == parts,
        text::joined(parts, 58).len() > 0,
        text::joined(parts, 58).last() != 58,
        forall|i: int|
            0 <= i && i + 1 < text::joined(parts, 58).len() ==> !#[trigger] colons_at(
                text::joined(parts, 58),
                i,
            ),
        ipv4_value(parts.last()) is None,
{
    let t = text::joined(parts, 58);
    assert forall|k: int, i: int|
        0 <= k < parts.len() && 0 <= i < parts[k].len() implies #[trigger] parts[k][i] != 58 by {
        assert(is_hex_piece(parts[k]));
    }
    text::parts_are_the_pieces(parts, 58);
    let last = parts[parts.len() - 1];
    assert(is_hex_piece(last));
    assert(last == parts.last());
    assert(t.last() == last.last());
    assert(last.last() == last[last.len() - 1]);
    assert forall|i: int| 0 <= i && i + 1 < t.len() implies !#[trigger] colons_at(t, i) by {
        if colons_at(t, i) {
            lemma_split_at_colons(t, i);
            let k = text::split_on(t.take(i), 58).len() as int;
            assert(parts[k].len() == 0);
            assert(is_hex_piece(parts[k]));
        }
    }
    assert forall|i: int| 0 <= i < last.len() implies last[i] != 46 by {}
    text::lemma_split_single(last, 46);
}

/// The groups of an IPv6 address may be spelled in either case and with leading zeros: eight of
/// them are an address.
pub proof fn eight_pieces_are_ipv6(parts: Seq<Seq<u8>>)
    requires
        parts.len() > 0,
        forall|i: int| 0 <= i < parts.len() ==> is_hex_piece(#[trigger] parts[i]),
    ensures
        parts.len() != 8 ==> ipv6_value(text::joined(parts, 58)) is None,
        parts.len() == 8 ==> {
            &&& ipv6_value(text::joined(parts, 58)) matches Some(ip)
            &&& ip.len() == 16
            &&& forall|i: int|
                0 <= i < 8 ==> #[trigger] has_group(ip, i, text::hex_value(parts[i]))
        },
{
    let t = text::joined(parts, 58);
    lemma_hex_pieces(parts);
    lemma_hex_pieces_text(parts);
    lemma_gap_place_unique(t, t.len() as int);
    assert(ipv6_side(t, true) == groups_value(parts));
}

/// The groups around a double colon may be spelled so too.
pub proof fn pieces_around_double_colons(head: Seq<Seq<u8>>, tail: Seq<Seq<u8>>)
    requires
        forall|i: int| 0 <= i < head.len() ==> is_hex_piece(#[trigger] head[i]),
        forall|i: int| 0 <= i < tail.len() ==> is_hex_piece(#[trigger] tail[i]),
    ensures
        ({
            let s = text::joined(head, 58) + seq![58u8, 58] + text::joined(tail, 58);
            let n = head.len() as int;
            let m = 8 - tail.len();
            &&& n >= m ==> ipv6_value(s) is None
            &&& n < m ==> {
                &&& ipv6_value(s) matches Some(ip)
                &&& ip.len() == 16
                &&& forall|i: int|
                    0 <= i < n ==> #[trigger] has_group(ip, i, text::hex_value(head[i]))
                &&& forall|i: int| n <= i < m ==> #[trigger] has_group(ip, i, 0)
                &&& forall|i: int|
                    m <= i < 8 ==> #[trigger] has_group(ip, i, text::hex_value(tail[i - m]))
            }
        }),
{
    let a = text::joined(head, 58);
    let b = text::joined(tail, 58);
    let n = head.len() as int;
    let m = 8 - tail.len();
    lemma_hex_pieces(head);
    lemma_hex_pieces(tail);
    let front = groups_value(head)->0;
    let back = groups_value(tail)->0;
    if n > 0 {
        lemma_hex_pieces_text(head);
    } else {
        assert(a.len() == 0);
        assert(front =~= Seq::<u8>::empty());
    }
    if tail.len() > 0 {
        lemma_hex_pieces_text(tail);
    } else {
        assert(b.len() == 0);
        assert(back =~= Seq::<u8>::empty());
    }
    assert(ipv6_side(a, false) == Some(front));
    assert(ipv6_side(b, true) == Some(back));
    lemma_gap_between(a, b);
    if n < m {
        lemma_gap_value(a, b, front, back);
        let ip = front + util::zeros((16 - front.len() - back.len()) as nat) + back;
        assert forall|i: int| 0 <= i < n implies #[trigger] has_group(
            ip,
            i,
            text::hex_value(head[i]),
        ) by {
            assert(has_group(front, i, text::hex_value(head[i])));
            assert(ip[2 * i] == front[2 * i] && ip[2 * i + 1] == front[2 * i + 1]);
        }
        assert forall|i: int| n <= i < m implies #[trigger] has_group(ip, i, 0) by {
            assert(ip[2 * i] == 0 && ip[2 * i + 1] == 0);
        }
        assert forall|i: int| m <= i < 8 implies #[trigger] has_group(
            ip,
            i,
            text::hex_value(tail[i - m]),
        ) by {
            let k = i - m;
            assert(has_group(back, k, text::hex_value(tail[k])));
            assert(ip[2 * i] == back[2 * k] && ip[2 * i + 1] == back[2 * k + 1]);
        }
    }
}

} // verus!
