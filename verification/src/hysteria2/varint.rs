//! Variable-length integers: the two highest bits of the first byte tell whether the number
//! takes one, two, four or eight bytes; the other bits hold it, big-endian.

use vstd::prelude::*;

use crate::error::Error;
use crate::stream_reader::StreamReader;

verus! {

/// The number that bytes spell, the first of the highest weight.
pub open spec fn be_value(s: Seq<u8>) -> nat
    decreases s.len(),
{
    if s.len() == 0 {
        0
    } else {
        be_value(s.drop_last()) * 256 + s.last() as nat
    }
}

/// The lowest `n` bytes of a number, the one of the highest weight first.
pub open spec fn be_bytes(v: nat, n: nat) -> Seq<u8>
    decreases n,
{
    if n == 0 {
        Seq::empty()
    } else {
        be_bytes(v / 256, (n - 1) as nat).push((v % 256) as u8)
    }
}

/// How many bytes an integer takes, by its first byte.
pub open spec fn varint_len(first: u8) -> nat {
    if first < 64 {
        1
    } else if first < 128 {
        2
    } else if first < 192 {
        4
    } else {
        8
    }
}

/// The first number that does not fit an integer of `n` bytes.
pub open spec fn varint_limit(n: nat) -> nat {
    if n == 1 {
        64
    } else if n == 2 {
        16384
    } else if n == 4 {
        1073741824
    } else {
        4611686018427387904
    }
}

/// The bytes of an integer in the shortest form that holds it.
pub open spec fn varint_bytes(v: nat) -> Option<Seq<u8>> {
    if v < varint_limit(1) {
        Some(be_bytes(v, 1))
    } else if v < varint_limit(2) {
        Some(be_bytes(v + varint_limit(2), 2))
    } else if v < varint_limit(4) {
        Some(be_bytes(v + 2 * varint_limit(4), 4))
    } else if v < varint_limit(8) {
        Some(be_bytes(v + 3 * varint_limit(8), 8))
    } else {
        None
    }
}

/// The integer at the start of some bytes, with its length, where they hold it in full.
pub open spec fn first_varint(d: Seq<u8>) -> Option<(nat, nat)> {
    if d.len() == 0 || d.len() < varint_len(d[0]) {
        None
    } else {
        let n = varint_len(d[0]);
        Some((be_value(d.take(n as int)) % varint_limit(n), n))
    }
}

/// How the bytes of a number fall apart.
proof fn lemma_be_bytes(v: nat, n: nat)
    ensures
        be_bytes(v, n).len() == n,
        n > 0 ==> be_bytes(v, n).last() == (v % 256) as u8,
        n > 0 ==> be_bytes(v, n).drop_last() == be_bytes(v / 256, (n - 1) as nat),
    decreases n,
{
    if n > 0 {
        lemma_be_bytes(v / 256, (n - 1) as nat);
        assert(be_bytes(v, n).drop_last() =~= be_bytes(v / 256, (n - 1) as nat));
    }
}

/// The values of the bytes of a number.
proof fn lemma_be_value_1(v: nat)
    requires
        v < 256,
    ensures
        be_value(be_bytes(v, 1)) == v,
        be_bytes(v, 1)[0] == v,
{
    reveal_with_fuel(be_value, 2);
    reveal_with_fuel(be_bytes, 2);
    lemma_be_bytes(v, 1);
}

proof fn lemma_be_value_2(v: nat)
    requires
        v < 65536,
    ensures
        be_value(be_bytes(v, 2)) == v,
        be_bytes(v, 2)[0] == v / 256,
{
    lemma_be_bytes(v, 2);
    lemma_be_value_1(v / 256);
}

proof fn lemma_be_value_4(v: nat)
    requires
        v < 4294967296,
    ensures
        be_value(be_bytes(v, 4)) == v,
        be_bytes(v, 4)[0] == v / 16777216,
{
    lemma_be_bytes(v, 4);
    lemma_be_bytes(v / 256, 3);
    lemma_be_value_2(v / 256 / 256);
    assert(be_value(be_bytes(v / 256, 3)) == v / 256);
}

proof fn lemma_be_value_8(v: nat)
    requires
        v < 18446744073709551616,
    ensures
        be_value(be_bytes(v, 8)) == v,
        be_bytes(v, 8)[0] == v / 72057594037927936,
{
    let a = v / 256;
    let b = a / 256;
    let c = b / 256;
    let d = c / 256;
    lemma_be_bytes(v, 8);
    lemma_be_bytes(a, 7);
    lemma_be_bytes(b, 6);
    lemma_be_bytes(c, 5);
    lemma_be_value_4(d);
    assert(be_value(be_bytes(c, 5)) == c);
    assert(be_value(be_bytes(b, 6)) == b);
    assert(be_value(be_bytes(a, 7)) == a);
    assert(be_bytes(v, 8)[0] == be_bytes(a, 7)[0]);
    assert(be_bytes(a, 7)[0] == be_bytes(b, 6)[0]);
    assert(be_bytes(b, 6)[0] == be_bytes(c, 5)[0]);
    assert(be_bytes(c, 5)[0] == be_bytes(d, 4)[0]);
}

/// Reading an encoded integer gives it back, whatever follows it.
pub proof fn varint_round_trip(v: nat, rest: Seq<u8>)
    requires
        v < varint_limit(8),
    ensures
        varint_bytes(v) matches Some(b) && first_varint(b + rest) == Some((v, b.len())),
{
    let b = varint_bytes(v)->0;
    let d = b + rest;
    if v < varint_limit(1) {
        lemma_be_bytes(v, 1);
        lemma_be_value_1(v);
        assert(varint_len(b[0]) == 1);
        assert(be_value(b) % varint_limit(1) == v);
    } else if v < varint_limit(2) {
        lemma_be_bytes(v + varint_limit(2), 2);
        lemma_be_value_2(v + varint_limit(2));
        assert(varint_len(b[0]) == 2);
        assert(be_value(b) % varint_limit(2) == v);
    } else if v < varint_limit(4) {
        lemma_be_bytes(v + 2 * varint_limit(4), 4);
        lemma_be_value_4(v + 2 * varint_limit(4));
        assert(varint_len(b[0]) == 4);
        assert(be_value(b) % varint_limit(4) == v);
    } else {
        lemma_be_bytes(v + 3 * varint_limit(8), 8);
        lemma_be_value_8(v + 3 * varint_limit(8));
        assert(varint_len(b[0]) == 8);
        assert(be_value(b) % varint_limit(8) == v);
    }
    assert(d.take(b.len() as int) =~= b);
    assert(d[0] == b[0]);
}

/// The start of some bytes decides which integer they start with.
pub proof fn varint_prefix(d: Seq<u8>, rest: Seq<u8>)
    ensures
        first_varint(d) is Some ==> first_varint(d + rest) == first_varint(d),
{
    if first_varint(d) is Some {
        let n = varint_len(d[0]) as int;
        assert((d + rest).take(n) =~= d.take(n));
    }
}

/// An integer takes at most eight bytes.
pub proof fn lemma_varint_bytes_len(v: nat)
    ensures
        varint_bytes(v) matches Some(b) ==> 1 <= b.len() <= 8,
{
    lemma_be_bytes(v, 1);
    lemma_be_bytes(v + varint_limit(2), 2);
    lemma_be_bytes(v + 2 * varint_limit(4), 4);
    lemma_be_bytes(v + 3 * varint_limit(8), 8);
}

/// Encodes an integer below 2^62.
pub fn encode_varint(value: u64) -> (r: Result<Vec<u8>, Error>)
    ensures
        match r {
            Ok(b) => varint_bytes(value as nat) == Some(b@),
            Err(e) => varint_bytes(value as nat) is None && e == Error::VarintTooLarge,
        },
{
    let tagged: u64;
    let n: usize;
    if value <= 63 {
        tagged = value;
        n = 1;
    } else if value < 16384 {
        tagged = value + 16384;
        n = 2;
    } else if value < 1073741824 {
        tagged = value + 2147483648;
        n = 4;
    } else if value < 4611686018427387904 {
        tagged = value + 13835058055282163712;
        n = 8;
    } else {
        return Err(Error::VarintTooLarge);
    }
    Ok(big_endian(tagged, n))
}

fn big_endian(v: u64, n: usize) -> (r: Vec<u8>)
    ensures
        r@ == be_bytes(v as nat, n as nat),
    decreases n,
{
    if n == 0 {
        Vec::new()
    } else {
        let mut r = big_endian(v / 256, n - 1);
        r.push((v % 256) as u8);
        r
    }
}

/// Few bytes spell small numbers.
proof fn lemma_be_value_bound(s: Seq<u8>)
    requires
        s.len() <= 8,
    ensures
        s.len() == 0 ==> be_value(s) == 0,
        s.len() == 1 ==> be_value(s) < 256,
        s.len() == 2 ==> be_value(s) < 65536,
        s.len() == 3 ==> be_value(s) < 16777216,
        s.len() == 4 ==> be_value(s) < 4294967296,
        s.len() == 5 ==> be_value(s) < 1099511627776,
        s.len() == 6 ==> be_value(s) < 281474976710656,
        s.len() == 7 ==> be_value(s) < 72057594037927936,
        s.len() == 8 ==> be_value(s) < 18446744073709551616,
    decreases s.len(),
{
    if s.len() > 0 {
        lemma_be_value_bound(s.drop_last());
    }
}

/// Reads the integer at the start of some bytes, and its length.
pub fn decode_varint(data: &[u8]) -> (r: Option<(u64, usize)>)
    ensures
        match r {
            Some((v, n)) => first_varint(data@) == Some((v as nat, n as nat)) && 1 <= n <= 8,
            None => first_varint(data@) is None,
        },
{
    if data.len() == 0 {
        return None;
    }
    let first_byte: u8 = data[0];
    let num_bytes: usize = match first_byte / 64 {
        0 => 1,
        1 => 2,
        2 => 4,
        _ => 8,
    };
    if data.len() < num_bytes {
        return None;
    }
    let limit: u64 = match num_bytes {
        1 => 64,
        2 => 16384,
        4 => 1073741824,
        _ => 4611686018427387904,
    };
    let mut value: u64 = 0;
    let mut i: usize = 0;
    while i < num_bytes
        invariant
            i <= num_bytes <= 8,
            num_bytes <= data@.len(),
            value == be_value(data@.take(i as int)),
        decreases num_bytes - i,
    {
        proof {
            assert(data@.take(i + 1).drop_last() =~= data@.take(i as int));
            lemma_be_value_bound(data@.take(i + 1));
        }
        value = value * 256 + data[i] as u64;
        i = i + 1;
    }
    Some((value % limit, num_bytes))
}

/// Takes an integer from a reader. `None`: more bytes are needed.
pub fn read_varint(stream_reader: &mut StreamReader) -> (r: Option<u64>)
    requires
        old(stream_reader).wf(),
    ensures
        final(stream_reader).wf(),
        final(stream_reader).capacity() == old(stream_reader).capacity(),
        match r {
            Some(v) => {
                &&& first_varint(old(stream_reader).unread()) matches Some((value, n))
                &&& v == value
                &&& final(stream_reader).unread() == old(stream_reader).unread().skip(n as int)
            },
            None => {
                &&& first_varint(old(stream_reader).unread()) is None
                &&& *final(stream_reader) == *old(stream_reader)
            },
        },
{
    match decode_varint(stream_reader.unparsed_data()) {
        Some((value, n)) => {
            stream_reader.consume(n);
            Some(value)
        },
        None => None,
    }
}

/// The two highest bits of the first byte say how long an integer is, and its other bits and the
/// bytes behind it spell it, the one of the highest weight first. Where bytes are missing there
/// is no integer yet.
pub proof fn varint_reads_big_endian(d: Seq<u8>)
    ensures
        first_varint(d) is None <==> {
            ||| d.len() == 0
            ||| d[0] >= 64 && d.len() < 2
            ||| d[0] >= 128 && d.len() < 4
            ||| d[0] >= 192 && d.len() < 8
        },
        d.len() >= 1 && d[0] < 64 ==> first_varint(d) == Some((d[0] as nat, 1nat)),
        d.len() >= 2 && 64 <= d[0] < 128 ==> first_varint(d) == Some(
            (((d[0] - 64) * 256 + d[1]) as nat, 2nat),
        ),
        d.len() >= 4 && 128 <= d[0] < 192 ==> first_varint(d) == Some(
            (((d[0] - 128) * 16777216 + d[1] * 65536 + d[2] * 256 + d[3]) as nat, 4nat),
        ),
        d.len() >= 8 && 192 <= d[0] ==> first_varint(d) == Some(
            (
                ((d[0] - 192) * 72057594037927936 + d[1] * 281474976710656 + d[2] * 1099511627776
                    + d[3] * 4294967296 + d[4] * 16777216 + d[5] * 65536 + d[6] * 256 + d[7]) as nat,
                8nat,
            ),
        ),
{
    assert forall|n: int| 0 < n <= d.len() implies be_value(#[trigger] d.take(n)) == be_value(
        d.take(n - 1),
    ) * 256 + d[n - 1] by {
        assert(d.take(n).drop_last() =~= d.take(n - 1));
        assert(d.take(n).last() == d[n - 1]);
    }
    assert(be_value(d.take(0)) == 0);
    if d.len() >= 1 {
        assert(be_value(d.take(1)) == d[0]);
    }
    if d.len() >= 2 {
        assert(be_value(d.take(2)) == d[0] * 256 + d[1]);
    }
    if d.len() >= 4 {
        assert(be_value(d.take(3)) == d[0] * 65536 + d[1] * 256 + d[2]);
        assert(be_value(d.take(4)) == d[0] * 16777216 + d[1] * 65536 + d[2] * 256 + d[3]);
    }
    if d.len() >= 8 {
        assert(be_value(d.take(5)) == d[0] * 4294967296 + d[1] * 16777216 + d[2] * 65536 + d[3] * 256
            + d[4]);
        assert(be_value(d.take(6)) == d[0] * 1099511627776 + d[1] * 4294967296 + d[2] * 16777216
            + d[3] * 65536 + d[4] * 256 + d[5]);
        assert(be_value(d.take(7)) == d[0] * 281474976710656 + d[1] * 1099511627776 + d[2]
            * 4294967296 + d[3] * 16777216 + d[4] * 65536 + d[5] * 256 + d[6]);
        assert(be_value(d.take(8)) == d[0] * 72057594037927936 + d[1] * 281474976710656 + d[2]
            * 1099511627776 + d[3] * 4294967296 + d[4] * 16777216 + d[5] * 65536 + d[6] * 256
            + d[7]);
    }
}

/// An integer is written in the shortest form that holds it, and one that needs more than 62
/// bits is not written.
pub proof fn varint_is_shortest(v: nat)
    ensures
        varint_bytes(v) is None <==> v >= 4611686018427387904,
        varint_bytes(v) matches Some(b) ==> b.len() == (if v < 64 {
            1int
        } else if v < 16384 {
            2
        } else if v < 1073741824 {
            4
        } else {
            8
        }),
        varint_bytes(v) matches Some(b) ==> first_varint(b) == Some((v, b.len())),
{
    lemma_be_bytes(v, 1);
    lemma_be_bytes(v + varint_limit(2), 2);
    lemma_be_bytes(v + 2 * varint_limit(4), 4);
    lemma_be_bytes(v + 3 * varint_limit(8), 8);
    if varint_bytes(v) is Some {
        let b = varint_bytes(v)->0;
        varint_round_trip(v, Seq::empty());
        assert(b + Seq::<u8>::empty() =~= b);
    }
}

} // verus!
