//! Small shared helpers.

use vstd::prelude::*;
use vstd::slice::slice_subrange;

verus! {

/// Bytes that are all zero.
pub open spec fn zeros(n: nat) -> Seq<u8> {
    Seq::new(n, |i: int| 0u8)
}

/// Allocates a zero-initialized buffer of `len` bytes.
pub fn allocate_vec(len: usize) -> (ret: Vec<u8>)
    ensures
        ret@ == zeros(len as nat),
{
    let ret = vec![0u8; len];
    assert(ret@ =~= zeros(len as nat));
    ret
}

/// What `write_all` still has to hand to its stream after `written` bytes of `buf` were
/// taken; nothing once the buffer is through.
pub fn write_all(buf: &[u8], written: usize) -> (r: Option<&[u8]>)
    ensures
        match r {
            Some(rest) => written < buf@.len() && rest@ == buf@.skip(written as int),
            None => written >= buf@.len(),
        },
{
    if written < buf.len() {
        let rest = slice_subrange(buf, written, buf.len());
        assert(rest@ =~= buf@.skip(written as int));
        Some(rest)
    } else {
        None
    }
}

// ------------------------ big-endian numbers ------------------------

/// The number in two bytes, the first of the higher weight.
pub open spec fn be16(hi: u8, lo: u8) -> u16 {
    (hi * 256 + lo) as u16
}

/// The two bytes of a number, the one of the higher weight first.
pub open spec fn be16_bytes(n: u16) -> Seq<u8> {
    seq![(n / 256) as u8, (n % 256) as u8]
}

/// The number in four bytes, the first of the highest weight.
pub open spec fn be32(s: Seq<u8>) -> u32 {
    (s[0] * 16777216 + s[1] * 65536 + s[2] * 256 + s[3]) as u32
}

/// The four bytes of a number, the one of the highest weight first.
pub open spec fn be32_bytes(n: u32) -> Seq<u8> {
    seq![
        (n / 16777216) as u8,
        (n / 65536 % 256) as u8,
        (n / 256 % 256) as u8,
        (n % 256) as u8,
    ]
}

/// The bytes of a number give the number back.
pub proof fn be16_round_trip(n: u16)
    ensures
        be16(be16_bytes(n)[0], be16_bytes(n)[1]) == n,
{
}

/// The bytes of a number give the number back.
pub proof fn be32_round_trip(n: u32)
    ensures
        be32(be32_bytes(n)) == n,
{
}

/// Reads the number in the two bytes from `at` on.
pub fn get_be16(data: &[u8], at: usize) -> (r: u16)
    requires
        at + 2 <= data@.len(),
    ensures
        r == be16(data@[at as int], data@[at + 1]),
{
    data[at] as u16 * 256 + data[at + 1] as u16
}

/// Reads the number in the four bytes from `at` on.
pub fn get_be32(data: &[u8], at: usize) -> (r: u32)
    requires
        at + 4 <= data@.len(),
    ensures
        r == be32(data@.subrange(at as int, at + 4)),
{
    data[at] as u32 * 16777216 + data[at + 1] as u32 * 65536 + data[at + 2] as u32 * 256
        + data[at + 3] as u32
}

/// Appends the two bytes of a number.
pub fn push_be16(out: &mut Vec<u8>, n: u16)
    ensures
        final(out)@ == old(out)@ + be16_bytes(n),
{
    out.push((n / 256) as u8);
    out.push((n % 256) as u8);
    assert(out@ =~= old(out)@ + be16_bytes(n));
}

/// Appends the four bytes of a number.
pub fn push_be32(out: &mut Vec<u8>, n: u32)
    ensures
        final(out)@ == old(out)@ + be32_bytes(n),
{
    out.push((n / 16777216) as u8);
    out.push((n / 65536 % 256) as u8);
    out.push((n / 256 % 256) as u8);
    out.push((n % 256) as u8);
    assert(out@ =~= old(out)@ + be32_bytes(n));
}

// -------------------------- pieces of bytes ---------------------------

/// Pieces one behind the other.
pub open spec fn join(parts: Seq<Seq<u8>>) -> Seq<u8>
    decreases parts.len(),
{
    if parts.len() == 0 {
        Seq::empty()
    } else {
        join(parts.drop_last()) + parts.last()
    }
}

/// Pieces in front of others.
pub proof fn lemma_join_add(a: Seq<Seq<u8>>, b: Seq<Seq<u8>>)
    ensures
        join(a + b) == join(a) + join(b),
    decreases b.len(),
{
    if b.len() == 0 {
        assert(a + b =~= a);
        assert(join(a) + join(b) =~= join(a));
    } else {
        lemma_join_add(a, b.drop_last());
        assert((a + b).drop_last() =~= a + b.drop_last());
        assert(join(a + b) =~= join(a) + join(b));
    }
}

/// One piece.
pub proof fn lemma_join_one(a: Seq<u8>)
    ensures
        join(seq![a]) == a,
{
    reveal_with_fuel(join, 2);
    assert(seq![a].drop_last() =~= Seq::<Seq<u8>>::empty());
    assert(join(seq![a]) =~= a);
}

// --------------------------- moving bytes ----------------------------

/// Appends bytes to a buffer.
pub fn push_bytes(out: &mut Vec<u8>, data: &[u8])
    ensures
        final(out)@ == old(out)@ + data@,
{
    out.extend_from_slice(data);
    assert(out@ =~= old(out)@ + data@);
}

/// A copy of bytes.
pub fn to_vec(data: &[u8]) -> (r: Vec<u8>)
    ensures
        r@ == data@,
{
    let mut r: Vec<u8> = Vec::new();
    push_bytes(&mut r, data);
    assert(r@ =~= data@);
    r
}

/// A copy of the bytes from `from` to `to`.
pub fn copy_range(data: &[u8], from: usize, to: usize) -> (r: Vec<u8>)
    requires
        from <= to <= data@.len(),
    ensures
        r@ == data@.subrange(from as int, to as int),
{
    to_vec(slice_subrange(data, from, to))
}

/// Moves the bytes from `start` to `end` to the front of the buffer.
pub fn move_to_front(buf: &mut Vec<u8>, start: usize, end: usize)
    requires
        start <= end <= old(buf)@.len(),
    ensures
        final(buf)@ == old(buf)@.subrange(start as int, end as int) + old(buf)@.skip(end - start),
{
    let mut i: usize = 0;
    let n: usize = end - start;
    while i < n
        invariant
            i <= n,
            n == end - start,
            start <= end <= old(buf)@.len(),
            buf@.len() == old(buf)@.len(),
            forall|j: int| 0 <= j < i ==> buf@[j] == old(buf)@[start + j],
            forall|j: int| i <= j < buf@.len() ==> buf@[j] == old(buf)@[j],
        decreases n - i,
    {
        let b: u8 = buf[start + i];
        buf[i] = b;
        i = i + 1;
    }
    assert(buf@ =~= old(buf)@.subrange(start as int, end as int) + old(buf)@.skip(end - start));
}

/// Writes bytes over those from `at` on.
pub fn copy_into(buf: &mut [u8], at: usize, data: &[u8])
    requires
        at + data@.len() <= old(buf)@.len(),
    ensures
        final(buf)@ == old(buf)@.take(at as int) + data@ + old(buf)@.skip(at + data@.len()),
{
    let n: usize = data.len();
    let mut i: usize = 0;
    assert(buf.len() == buf@.len());
    while i < n
        invariant
            i <= n,
            n == data@.len(),
            at + n <= usize::MAX,
            at + n <= old(buf)@.len(),
            buf@.len() == old(buf)@.len(),
            forall|j: int| 0 <= j < i ==> buf@[at + j] == data@[j],
            forall|j: int| 0 <= j < at ==> buf@[j] == old(buf)@[j],
            forall|j: int| at + i <= j < buf@.len() ==> buf@[j] == old(buf)@[j],
        decreases n - i,
    {
        buf[at + i] = data[i];
        i = i + 1;
    }
    let ghost whole = old(buf)@.take(at as int) + data@ + old(buf)@.skip(at + data@.len());
    assert forall|j: int| 0 <= j < whole.len() implies buf@[j] == whole[j] by {
        if at <= j < at + n {
            assert(buf@[at + (j - at)] == data@[j - at]);
        }
    }
    assert(buf@ =~= whole);
}

/// Numbers in two and four bytes are written and read with the byte of the highest weight first.
pub proof fn big_endian_order(a: u8, b: u8, c: u8, d: u8, m: u16, n: u32)
    ensures
        be16(a, b) as int == a as int * 256 + b as int,
        be32(seq![a, b, c, d]) as int == a as int * 16777216 + b as int * 65536 + c as int * 256
            + d as int,
        be16_bytes(m).len() == 2,
        be16_bytes(m)[0] as int * 256 + be16_bytes(m)[1] as int == m,
        be32_bytes(n).len() == 4,
        be32_bytes(n)[0] as int * 16777216 + be32_bytes(n)[1] as int * 65536
            + be32_bytes(n)[2] as int * 256 + be32_bytes(n)[3] as int == n,
{
}

} // verus!
