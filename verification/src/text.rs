//! Text as UTF-8 bytes: numbers, separators and blanks.
//!
//! The grammars of this crate are stated over the bytes of a text. `encode_utf8` of
//! `vstd` relates them to the characters of a `str`.

use vstd::prelude::*;
use vstd::slice::slice_subrange;
use vstd::utf8::*;

verus! {

// ------------------------------- UTF-8 -------------------------------

/// Reads bytes as UTF-8 text.
///
/// Calls `core::str::from_utf8`: it succeeds on exactly the well-formed UTF-8 strings, and
/// hands back the characters that the bytes encode.
#[verifier::external_body]
pub(crate) fn utf8_str(bytes: &[u8]) -> (r: Option<&str>)
    ensures
        r is Some <==> valid_utf8(bytes@),
        r is Some ==> r->0@ == decode_utf8(bytes@),
{
    core::str::from_utf8(bytes).ok()
}

/// Bytes below 128 are UTF-8 as they stand.
pub proof fn lemma_ascii_is_utf8(s: Seq<u8>)
    requires
        forall|i: int| 0 <= i < s.len() ==> s[i] < 128,
    ensures
        valid_utf8(s),
    decreases s.len(),
{
    if s.len() > 0 {
        let b = s[0];
        assert(b < 128 ==> b & 0x80 == 0 && (b as u32) < 0x80) by (bit_vector);
        lemma_ascii_is_utf8(s.skip(1));
        reveal_with_fuel(valid_utf8, 2);
        assert(valid_first_scalar(s));
        assert(pop_first_scalar(s) =~= s.skip(1));
    }
}

/// The text that UTF-8 bytes spell.
pub(crate) fn utf8_string(bytes: &[u8]) -> (r: String)
    requires
        valid_utf8(bytes@),
    ensures
        encode_utf8(r@) == bytes@,
{
    match utf8_str(bytes) {
        Some(text) => {
            proof {
                decode_utf8_encode_utf8(bytes@);
            }
            text.to_owned()
        },
        None => String::new(),
    }
}

/// A text whose bytes are all below 128.
pub(crate) fn ascii_string(bytes: &[u8]) -> (r: String)
    requires
        forall|i: int| 0 <= i < bytes@.len() ==> bytes@[i] < 128,
    ensures
        encode_utf8(r@) == bytes@,
{
    proof {
        lemma_ascii_is_utf8(bytes@);
    }
    utf8_string(bytes)
}

// ------------------------------ numbers ------------------------------

/// A decimal digit.
pub open spec fn is_digit(b: u8) -> bool {
    48 <= b <= 57
}

/// Decimal digits only.
pub open spec fn all_digits(s: Seq<u8>) -> bool {
    forall|i: int| 0 <= i < s.len() ==> is_digit(#[trigger] s[i])
}

/// The number that decimal digits spell.
pub open spec fn digits_value(s: Seq<u8>) -> nat
    decreases s.len(),
{
    if s.len() == 0 {
        0
    } else {
        digits_value(s.drop_last()) * 10 + (s.last() - 48) as nat
    }
}

/// A text without its leading plus sign, where it has one.
pub open spec fn without_plus(s: Seq<u8>) -> Seq<u8> {
    if s.len() > 0 && s[0] == 43 {
        s.skip(1)
    } else {
        s
    }
}

/// The number that a text spells: an optional plus sign and at least one digit, with a
/// value of at most `max`.
pub open spec fn parse_unsigned(s: Seq<u8>, max: nat) -> Option<nat> {
    let digits = without_plus(s);
    if digits.len() > 0 && all_digits(digits) && digits_value(digits) <= max {
        Some(digits_value(digits))
    } else {
        None
    }
}

/// More digits never spell a smaller number.
proof fn lemma_digits_value_grows(s: Seq<u8>, i: int)
    requires
        0 <= i <= s.len(),
        all_digits(s),
    ensures
        digits_value(s.take(i)) <= digits_value(s),
    decreases s.len(),
{
    if i == s.len() {
        assert(s.take(i) =~= s);
    } else {
        lemma_digits_value_grows(s.drop_last(), i);
        assert(s.drop_last().take(i) =~= s.take(i));
    }
}

/// Reads a number of at most `max`.
pub fn read_unsigned(s: &[u8], max: u64) -> (r: Option<u64>)
    ensures
        match r {
            Some(v) => parse_unsigned(s@, max as nat) == Some(v as nat),
            None => parse_unsigned(s@, max as nat) is None,
        },
{
    let n: usize = s.len();
    let start: usize = if n > 0 && s[0] == 43 {
        1
    } else {
        0
    };
    let ghost digits = without_plus(s@);
    assert(digits =~= s@.skip(start as int));
    if start == n {
        return None;
    }
    let mut value: u64 = 0;
    let mut i: usize = start;
    assert(digits.take(0) =~= Seq::<u8>::empty());
    while i < n
        invariant
            start <= i <= n,
            n == s@.len(),
            digits == s@.skip(start as int),
            digits == without_plus(s@),
            all_digits(digits.take(i - start)),
            value == digits_value(digits.take(i - start)),
            value <= max,
        decreases n - i,
    {
        let b: u8 = s[i];
        assert(digits[i - start] == b);
        if b < 48 || b > 57 {
            assert(!is_digit(digits[i - start]));
            return None;
        }
        let ghost longer = digits.take(i - start + 1);
        assert(longer.drop_last() =~= digits.take(i - start));
        assert(longer.last() == b);
        assert(digits_value(longer) == value * 10 + (b - 48));
        assert(all_digits(longer));
        let d: u64 = (b - 48) as u64;
        if value > max / 10 || (value == max / 10 && d > max % 10) {
            proof {
                assert(digits_value(longer) > max);
                if all_digits(digits) {
                    lemma_digits_value_grows(digits, i - start + 1);
                }
            }
            return None;
        }
        value = value * 10 + d;
        i = i + 1;
    }
    assert(digits.take(n - start) =~= digits);
    Some(value)
}

/// The shortest decimal spelling of a number.
pub open spec fn decimal_text(n: nat) -> Seq<u8>
    decreases n,
{
    if n < 10 {
        seq![(48 + n) as u8]
    } else {
        decimal_text(n / 10).push((48 + n % 10) as u8)
    }
}

/// Appends the decimal spelling of a number.
pub fn push_decimal(out: &mut Vec<u8>, n: u64)
    ensures
        final(out)@ == old(out)@ + decimal_text(n as nat),
    decreases n,
{
    if n >= 10 {
        push_decimal(out, n / 10);
    }
    out.push((48 + n % 10) as u8);
    assert(out@ =~= old(out)@ + decimal_text(n as nat));
}

/// A decimal spelling is made of digits, spells its number, and starts with a zero only
/// where the number is zero.
pub proof fn lemma_decimal_text(n: nat)
    ensures
        decimal_text(n).len() > 0,
        all_digits(decimal_text(n)),
        digits_value(decimal_text(n)) == n,
        n > 0 ==> decimal_text(n)[0] != 48,
    decreases n,
{
    let t = decimal_text(n);
    if n < 10 {
        assert(t.drop_last() =~= Seq::<u8>::empty());
        assert(digits_value(Seq::<u8>::empty()) == 0);
    } else {
        lemma_decimal_text(n / 10);
        assert(t.drop_last() =~= decimal_text(n / 10));
    }
}

/// A number below a power of ten has no more digits than that power has zeros.
pub proof fn lemma_decimal_text_len(n: nat)
    ensures
        n < 10 ==> decimal_text(n).len() == 1,
        n < 100 ==> decimal_text(n).len() <= 2,
        n < 1000 ==> decimal_text(n).len() <= 3,
        n < 10000 ==> decimal_text(n).len() <= 4,
        n < 100000 ==> decimal_text(n).len() <= 5,
{
    reveal_with_fuel(decimal_text, 6);
}

/// Reading a decimal spelling gives the number back.
pub proof fn decimal_round_trip(n: nat, max: nat)
    requires
        n <= max,
    ensures
        parse_unsigned(decimal_text(n), max) == Some(n),
{
    lemma_decimal_text(n);
    assert(is_digit(decimal_text(n)[0]));
}

/// A decimal spelling is read wherever its number is within the limit, and nowhere else.
pub proof fn parse_unsigned_reads_decimals(n: nat, max: nat)
    ensures
        parse_unsigned(decimal_text(n), max) == (if n <= max {
            Some(n)
        } else {
            None
        }),
{
    lemma_decimal_text(n);
    assert(is_digit(decimal_text(n)[0]));
}

/// How a number is read, one byte after the other: nothing is no number, nor is a plus sign
/// alone; a digit behind either is its value; a digit behind a number counts ones, and what stood
/// before it counts tens; and nothing but a digit may follow.
pub proof fn numbers_are_read_by_place(s: Seq<u8>, b: u8, max: nat)
    ensures
        parse_unsigned(Seq::empty(), max) is None,
        parse_unsigned(seq![43u8], max) is None,
        s.len() == 0 || s == seq![43u8] ==> parse_unsigned(s.push(b), max) == (if 48 <= b <= 57 && b
            - 48 <= max {
            Some((b - 48) as nat)
        } else {
            None
        }),
        s.len() > 0 && s != seq![43u8] ==> parse_unsigned(s.push(b), max) == (if parse_unsigned(
            s,
            max,
        ) is Some && 48 <= b <= 57 && parse_unsigned(s, max)->0 * 10 + (b - 48) <= max {
            Some((parse_unsigned(s, max)->0 * 10 + (b - 48)) as nat)
        } else {
            None
        }),
{
    let t = s.push(b);
    assert(seq![43u8].skip(1) =~= Seq::<u8>::empty());
    if s == seq![43u8] {
        assert(t.skip(1) =~= seq![b]);
        assert(seq![b].drop_last() =~= Seq::<u8>::empty());
        assert(digits_value(Seq::<u8>::empty()) == 0);
        assert(seq![b][0] == b);
    } else if s.len() == 0 {
        assert(t =~= seq![b]);
        assert(seq![b].drop_last() =~= Seq::<u8>::empty());
        assert(digits_value(Seq::<u8>::empty()) == 0);
        assert(seq![b][0] == b);
        assert(b == 43 ==> t.skip(1) =~= Seq::<u8>::empty());
    } else {
        let digits = without_plus(s);
        assert(t[0] == s[0]);
        if s[0] == 43 && s.len() == 1 {
            assert(s =~= seq![43u8]);
        }
        assert(without_plus(t) =~= digits.push(b));
        let whole = digits.push(b);
        assert(whole.drop_last() =~= digits);
        assert(digits_value(whole) == digits_value(digits) * 10 + (b - 48) as nat);
        if all_digits(whole) {
            assert forall|i: int| 0 <= i < digits.len() implies is_digit(#[trigger] digits[i]) by {
                assert(whole[i] == digits[i]);
            }
            assert(is_digit(whole[digits.len() as int]));
        }
        if all_digits(digits) && is_digit(b) {
            assert forall|i: int| 0 <= i < whole.len() implies is_digit(#[trigger] whole[i]) by {
                if i < digits.len() {
                    assert(whole[i] == digits[i]);
                }
            }
        }
    }
}

/// A lower-case hexadecimal digit.
pub open spec fn hex_digit(n: nat) -> u8 {
    if n < 10 {
        (48 + n) as u8
    } else {
        (87 + n) as u8
    }
}

/// A hexadecimal digit of either case.
pub open spec fn is_hex_digit(b: u8) -> bool {
    is_digit(b) || 65 <= b <= 70 || 97 <= b <= 102
}

/// The value of a hexadecimal digit.
pub open spec fn hex_digit_value(b: u8) -> nat {
    if is_digit(b) {
        (b - 48) as nat
    } else if 65 <= b <= 70 {
        (b - 55) as nat
    } else {
        (b - 87) as nat
    }
}

/// Hexadecimal digits only.
pub open spec fn all_hex_digits(s: Seq<u8>) -> bool {
    forall|i: int| 0 <= i < s.len() ==> is_hex_digit(#[trigger] s[i])
}

/// The number that hexadecimal digits spell.
pub open spec fn hex_value(s: Seq<u8>) -> nat
    decreases s.len(),
{
    if s.len() == 0 {
        0
    } else {
        hex_value(s.drop_last()) * 16 + hex_digit_value(s.last())
    }
}

/// The shortest lower-case hexadecimal spelling of a number.
pub open spec fn hex_text(n: nat) -> Seq<u8>
    decreases n,
{
    if n < 16 {
        seq![hex_digit(n)]
    } else {
        hex_text(n / 16).push(hex_digit(n % 16))
    }
}

/// Appends the hexadecimal spelling of a number.
pub fn push_hex(out: &mut Vec<u8>, n: u16)
    ensures
        final(out)@ == old(out)@ + hex_text(n as nat),
    decreases n,
{
    if n >= 16 {
        push_hex(out, n / 16);
    }
    let d: u8 = (n % 16) as u8;
    out.push(
        if d < 10 {
            48 + d
        } else {
            87 + d
        },
    );
    assert(out@ =~= old(out)@ + hex_text(n as nat));
}

/// A hexadecimal spelling is made of digits and spells its number.
pub proof fn lemma_hex_text(n: nat)
    ensures
        hex_text(n).len() > 0,
        all_hex_digits(hex_text(n)),
        hex_value(hex_text(n)) == n,
        n < 65536 ==> hex_text(n).len() <= 4,
    decreases n,
{
    let t = hex_text(n);
    if n < 16 {
        assert(t.drop_last() =~= Seq::<u8>::empty());
        assert(hex_value(Seq::<u8>::empty()) == 0);
    } else {
        lemma_hex_text(n / 16);
        assert(t.drop_last() =~= hex_text(n / 16));
        assert(t.last() == hex_digit(n % 16));
    }
    assert(n < 65536 ==> hex_text(n).len() <= 4) by {
        reveal_with_fuel(hex_text, 5);
    }
}

/// Every byte as two lower-case hexadecimal digits.
pub open spec fn hex_bytes(s: Seq<u8>) -> Seq<u8>
    decreases s.len(),
{
    if s.len() == 0 {
        Seq::empty()
    } else {
        hex_bytes(s.drop_last()).push(hex_digit((s.last() / 16) as nat)).push(
            hex_digit((s.last() % 16) as nat),
        )
    }
}

/// Each byte takes two digits, which are in lower case.
pub proof fn lemma_hex_bytes(s: Seq<u8>)
    ensures
        hex_bytes(s).len() == 2 * s.len(),
        forall|i: int|
            0 <= i < hex_bytes(s).len() ==> is_digit(#[trigger] hex_bytes(s)[i]) || 97
                <= hex_bytes(s)[i] <= 102,
    decreases s.len(),
{
    if s.len() > 0 {
        let front = hex_bytes(s.drop_last());
        lemma_hex_bytes(s.drop_last());
        assert forall|i: int| 0 <= i < hex_bytes(s).len() implies is_digit(
            #[trigger] hex_bytes(s)[i],
        ) || 97 <= hex_bytes(s)[i] <= 102 by {
            if i < front.len() {
                assert(hex_bytes(s)[i] == front[i]);
            }
        }
    }
}

/// Each byte is spelled by its high half and its low half, in this order.
pub proof fn hex_bytes_by_place(s: Seq<u8>, i: int)
    requires
        0 <= i < s.len(),
    ensures
        hex_bytes(s)[2 * i] == (if s[i] / 16 < 10 {
            48 + s[i] / 16
        } else {
            87 + s[i] / 16
        }),
        hex_bytes(s)[2 * i + 1] == (if s[i] % 16 < 10 {
            48 + s[i] % 16
        } else {
            87 + s[i] % 16
        }),
    decreases s.len(),
{
    let front = s.drop_last();
    lemma_hex_bytes(front);
    if i < front.len() {
        hex_bytes_by_place(front, i);
        assert(front[i] == s[i]);
    }
}

/// Spells bytes as hexadecimal digits.
pub fn hex_string(s: &[u8]) -> (r: String)
    ensures
        encode_utf8(r@) == hex_bytes(s@),
{
    let mut out: Vec<u8> = Vec::new();
    let n: usize = s.len();
    let mut i: usize = 0;
    assert(s@.take(0) =~= Seq::<u8>::empty());
    while i < n
        invariant
            0 <= i <= n,
            n == s@.len(),
            out@ == hex_bytes(s@.take(i as int)),
            forall|j: int| 0 <= j < out@.len() ==> out@[j] < 128,
        decreases n - i,
    {
        let hi: u8 = s[i] / 16;
        let lo: u8 = s[i] % 16;
        out.push(
            if hi < 10 {
                48 + hi
            } else {
                87 + hi
            },
        );
        out.push(
            if lo < 10 {
                48 + lo
            } else {
                87 + lo
            },
        );
        assert(s@.take(i + 1).drop_last() =~= s@.take(i as int));
        i = i + 1;
    }
    assert(s@.take(n as int) =~= s@);
    ascii_string(out.as_slice())
}


// ----------------------------- separators -----------------------------

/// The first place of a byte, or the length where it does not occur.
pub open spec fn first_place(s: Seq<u8>, b: u8) -> int
    decreases s.len(),
{
    if s.len() == 0 || s[0] == b {
        0
    } else {
        1 + first_place(s.skip(1), b)
    }
}

/// Where `first_place` points.
pub proof fn lemma_first_place(s: Seq<u8>, b: u8)
    ensures
        0 <= first_place(s, b) <= s.len(),
        forall|i: int| 0 <= i < first_place(s, b) ==> s[i] != b,
        first_place(s, b) < s.len() ==> s[first_place(s, b)] == b,
    decreases s.len(),
{
    if s.len() > 0 && s[0] != b {
        let t = s.skip(1);
        lemma_first_place(t, b);
        assert forall|i: int| 0 <= i < first_place(s, b) implies s[i] != b by {
            if i > 0 {
                assert(s[i] == t[i - 1]);
            }
        }
    }
}

/// There is only one first place.
pub proof fn lemma_first_place_unique(s: Seq<u8>, b: u8, p: int)
    requires
        0 <= p <= s.len(),
        forall|i: int| 0 <= i < p ==> s[i] != b,
        p < s.len() ==> s[p] == b,
    ensures
        first_place(s, b) == p,
{
    lemma_first_place(s, b);
    let q = first_place(s, b);
    if q < p {
        assert(s[q] != b);
    } else if p < q {
        assert(s[p] != b);
    }
}

/// Finds the first place of a byte.
pub fn find_first(s: &[u8], b: u8) -> (r: usize)
    ensures
        r == first_place(s@, b),
{
    let n: usize = s.len();
    let mut i: usize = 0;
    while i < n && s[i] != b
        invariant
            0 <= i <= n,
            n == s@.len(),
            forall|j: int| 0 <= j < i ==> s@[j] != b,
        decreases n - i,
    {
        i = i + 1;
    }
    proof {
        lemma_first_place_unique(s@, b, i as int);
    }
    i
}

/// The last place of a byte, or -1 where it does not occur.
pub open spec fn last_place(s: Seq<u8>, b: u8) -> int
    decreases s.len(),
{
    if s.len() == 0 {
        -1
    } else if s.last() == b {
        s.len() - 1
    } else {
        last_place(s.drop_last(), b)
    }
}

/// Where `last_place` points.
pub proof fn lemma_last_place(s: Seq<u8>, b: u8)
    ensures
        -1 <= last_place(s, b) < s.len(),
        forall|i: int| last_place(s, b) < i < s.len() ==> s[i] != b,
        last_place(s, b) >= 0 ==> s[last_place(s, b)] == b,
    decreases s.len(),
{
    if s.len() > 0 && s.last() != b {
        let t = s.drop_last();
        lemma_last_place(t, b);
        assert forall|i: int| last_place(s, b) < i < s.len() implies s[i] != b by {
            if i < t.len() {
                assert(t[i] == s[i]);
            }
        }
    }
}

/// There is only one last place.
pub proof fn lemma_last_place_unique(s: Seq<u8>, b: u8, p: int)
    requires
        -1 <= p < s.len(),
        forall|i: int| p < i < s.len() ==> s[i] != b,
        p >= 0 ==> s[p] == b,
    ensures
        last_place(s, b) == p,
{
    lemma_last_place(s, b);
    let q = last_place(s, b);
    if q > p {
        assert(s[q] != b);
    } else if p > q {
        assert(s[p] != b);
    }
}

/// Finds the last place of a byte.
pub fn find_last(s: &[u8], b: u8) -> (r: Option<usize>)
    ensures
        match r {
            Some(i) => last_place(s@, b) == i,
            None => last_place(s@, b) == -1,
        },
{
    let n: usize = s.len();
    let mut i: usize = n;
    while i > 0
        invariant
            0 <= i <= n,
            n == s@.len(),
            forall|j: int| i <= j < n ==> s@[j] != b,
        decreases i,
    {
        if s[i - 1] == b {
            proof {
                lemma_last_place_unique(s@, b, i - 1);
            }
            return Some(i - 1);
        }
        i = i - 1;
    }
    proof {
        lemma_last_place_unique(s@, b, -1);
    }
    None
}

/// The pieces of a text between separators.
pub open spec fn split_on(s: Seq<u8>, sep: u8) -> Seq<Seq<u8>>
    decreases s.len(),
{
    if s.len() == 0 {
        seq![Seq::empty()]
    } else {
        let front = split_on(s.drop_last(), sep);
        if s.last() == sep {
            front.push(Seq::empty())
        } else {
            front.update(front.len() - 1, front.last().push(s.last()))
        }
    }
}

/// The contents of each buffer.
pub open spec fn views(v: Seq<Vec<u8>>) -> Seq<Seq<u8>> {
    v.map_values(|x: Vec<u8>| x@)
}

/// There is always at least one piece.
pub proof fn lemma_split_nonempty(s: Seq<u8>, sep: u8)
    ensures
        split_on(s, sep).len() > 0,
    decreases s.len(),
{
    if s.len() > 0 {
        lemma_split_nonempty(s.drop_last(), sep);
    }
}

/// A text without separators is one piece.
pub proof fn lemma_split_single(s: Seq<u8>, sep: u8)
    requires
        forall|i: int| 0 <= i < s.len() ==> s[i] != sep,
    ensures
        split_on(s, sep) == seq![s],
    decreases s.len(),
{
    if s.len() > 0 {
        lemma_split_single(s.drop_last(), sep);
        assert(split_on(s, sep) =~= seq![s]) by {
            assert(s.drop_last().push(s.last()) =~= s);
        }
    } else {
        assert(s =~= Seq::empty());
    }
}

/// The pieces on both sides of one separator.
pub proof fn lemma_split_join(a: Seq<u8>, sep: u8, b: Seq<u8>)
    ensures
        split_on(a.push(sep) + b, sep) == split_on(a, sep) + split_on(b, sep),
    decreases b.len(),
{
    let whole = a.push(sep) + b;
    lemma_split_nonempty(a, sep);
    lemma_split_nonempty(b, sep);
    if b.len() == 0 {
        assert(whole =~= a.push(sep));
        assert(whole.drop_last() =~= a);
        assert(split_on(whole, sep) =~= split_on(a, sep) + split_on(b, sep));
    } else {
        lemma_split_join(a, sep, b.drop_last());
        lemma_split_nonempty(b.drop_last(), sep);
        assert(whole.drop_last() =~= a.push(sep) + b.drop_last());
        assert(whole.last() == b.last());
        assert(split_on(whole, sep) =~= split_on(a, sep) + split_on(b, sep));
    }
}

/// Where every piece is made of digits, the text is made of digits and separators.
pub proof fn lemma_split_digits(s: Seq<u8>, sep: u8)
    requires
        forall|k: int| 0 <= k < split_on(s, sep).len() ==> #[trigger] all_digits(split_on(s, sep)[k]),
    ensures
        forall|i: int| 0 <= i < s.len() ==> is_digit(#[trigger] s[i]) || s[i] == sep,
    decreases s.len(),
{
    if s.len() > 0 {
        let t = s.drop_last();
        let front = split_on(t, sep);
        let whole = split_on(s, sep);
        lemma_split_nonempty(t, sep);
        assert forall|k: int| 0 <= k < front.len() implies #[trigger] all_digits(front[k]) by {
            assert(all_digits(whole[k]));
            if s.last() != sep && k == front.len() - 1 {
                assert forall|i: int| 0 <= i < front[k].len() implies is_digit(
                    #[trigger] front[k][i],
                ) by {
                    assert(whole[k][i] == front[k][i]);
                }
            }
        }
        lemma_split_digits(t, sep);
        assert forall|i: int| 0 <= i < s.len() implies is_digit(#[trigger] s[i]) || s[i] == sep by {
            if i < t.len() {
                assert(t[i] == s[i]);
            } else if s.last() != sep {
                let k = front.len() - 1;
                assert(all_digits(whole[k]));
                assert(whole[k].last() == s.last());
            }
        }
    }
}

/// A byte that does not occur in a text occurs in none of its pieces.
pub proof fn lemma_split_avoids(s: Seq<u8>, sep: u8, b: u8)
    requires
        forall|i: int| 0 <= i < s.len() ==> s[i] != b,
    ensures
        forall|k: int, i: int|
            0 <= k < split_on(s, sep).len() && 0 <= i < split_on(s, sep)[k].len() ==> split_on(
                s,
                sep,
            )[k][i] != b,
    decreases s.len(),
{
    lemma_split_nonempty(s, sep);
    if s.len() > 0 {
        assert forall|i: int| 0 <= i < s.drop_last().len() implies s.drop_last()[i] != b by {
            assert(s[i] != b);
        }
        lemma_split_avoids(s.drop_last(), sep, b);
        lemma_split_nonempty(s.drop_last(), sep);
        assert(s[s.len() - 1] != b);
    }
}

/// Cuts a text at every separator.
pub fn split_bytes(s: &[u8], sep: u8) -> (r: Vec<Vec<u8>>)
    ensures
        views(r@) == split_on(s@, sep),
{
    let mut out: Vec<Vec<u8>> = Vec::new();
    let mut piece: Vec<u8> = Vec::new();
    let n: usize = s.len();
    let mut i: usize = 0;
    proof {
        assert(s@.take(0) =~= Seq::<u8>::empty());
        assert(views(out@).push(piece@) =~= split_on(s@.take(0), sep));
    }
    while i < n
        invariant
            0 <= i <= n,
            n == s@.len(),
            views(out@).push(piece@) == split_on(s@.take(i as int), sep),
        decreases n - i,
    {
        let b: u8 = s[i];
        let ghost front = split_on(s@.take(i as int), sep);
        let ghost before = views(out@);
        assert(s@.take(i + 1).drop_last() =~= s@.take(i as int));
        assert(s@.take(i + 1).last() == b);
        if b == sep {
            let mut done: Vec<u8> = Vec::new();
            core::mem::swap(&mut done, &mut piece);
            out.push(done);
            assert(views(out@) =~= before.push(done@));
            assert(views(out@).push(piece@) =~= front.push(Seq::empty()));
        } else {
            piece.push(b);
            assert(views(out@).push(piece@) =~= front.update(
                front.len() - 1,
                front.last().push(b),
            ));
        }
        i = i + 1;
    }
    assert(s@.take(n as int) =~= s@);
    let ghost before = views(out@);
    out.push(piece);
    assert(views(out@) =~= before.push(piece@));
    out
}

// ------------------------------- blanks -------------------------------

/// A blank that takes three bytes in UTF-8.
pub open spec fn is_wide_blank(a: u8, b: u8, c: u8) -> bool {
    ||| a == 0xE1 && b == 0x9A && c == 0x80
    ||| a == 0xE2 && b == 0x80 && (0x80 <= c <= 0x8A || c == 0xA8 || c == 0xA9 || c == 0xAF)
    ||| a == 0xE2 && b == 0x81 && c == 0x9F
    ||| a == 0xE3 && b == 0x80 && c == 0x80
}

/// How many bytes the blank at the start of a text takes; zero where none stands there.
pub open spec fn blank_at_start(s: Seq<u8>) -> int {
    if s.len() >= 1 && (9 <= s[0] <= 13 || s[0] == 32) {
        1
    } else if s.len() >= 2 && s[0] == 0xC2 && (s[1] == 0x85 || s[1] == 0xA0) {
        2
    } else if s.len() >= 3 && is_wide_blank(s[0], s[1], s[2]) {
        3
    } else {
        0
    }
}

/// How many bytes the blank at the end of a text takes; zero where none stands there.
pub open spec fn blank_at_end(s: Seq<u8>) -> int {
    let n = s.len() as int;
    if n >= 1 && (9 <= s[n - 1] <= 13 || s[n - 1] == 32) {
        1
    } else if n >= 2 && s[n - 2] == 0xC2 && (s[n - 1] == 0x85 || s[n - 1] == 0xA0) {
        2
    } else if n >= 3 && is_wide_blank(s[n - 3], s[n - 2], s[n - 1]) {
        3
    } else {
        0
    }
}

/// A text without the blanks at its start.
pub open spec fn trim_start(s: Seq<u8>) -> Seq<u8>
    decreases s.len(),
{
    if blank_at_start(s) > 0 {
        trim_start(s.skip(blank_at_start(s)))
    } else {
        s
    }
}

/// A text without the blanks at its end.
pub open spec fn trim_end(s: Seq<u8>) -> Seq<u8>
    decreases s.len(),
{
    if blank_at_end(s) > 0 {
        trim_end(s.take(s.len() - blank_at_end(s)))
    } else {
        s
    }
}

/// A text without the blanks around it. Blank are the characters with the Unicode property
/// `White_Space`.
pub open spec fn trim(s: Seq<u8>) -> Seq<u8> {
    trim_end(trim_start(s))
}

/// Trimming cuts whole blanks off the start and the end, and leaves a text that neither starts
/// nor ends with one. What is in between stays.
pub proof fn trim_cuts_blanks(s: Seq<u8>)
    ensures
        exists|a: int, b: int| 0 <= a <= b <= s.len() && trim(s) == #[trigger] s.subrange(a, b),
        blank_at_end(trim(s)) == 0,
        blank_at_start(s) == 0 && blank_at_end(s) == 0 ==> trim(s) == s,
        trim(s).len() > 0 ==> !(9 <= trim(s)[0] <= 13 || trim(s)[0] == 32),
        trim(s).len() > 0 ==> !(9 <= trim(s).last() <= 13 || trim(s).last() == 32),
{
    let t = trim_start(s);
    lemma_trim_start(s);
    lemma_trim_end(t);
    let a = s.len() - t.len();
    let b = a + trim(s).len();
    assert(trim(s) =~= s.subrange(a, b));
    if trim(s).len() > 0 {
        assert(trim(s)[0] == t[0]);
        assert(trim(s).last() == trim(s)[trim(s).len() - 1]);
    }
}

/// Blank are the characters with one byte from 9 to 13 and 32, those with the numbers 133 and 160,
/// which take two bytes, and those of three bytes with the numbers 5760, 8192 to 8202, 8232, 8233,
/// 8239, 8287 and 12288.
pub proof fn blanks_have_their_numbers(a: u8, b: u8, c: u8, rest: Seq<u8>)
    ensures
        is_wide_blank(a, b, c) <==> {
            let n = (a - 224) * 4096 + (b - 128) * 64 + (c - 128);
            &&& 224 <= a <= 239
            &&& 128 <= b <= 191
            &&& 128 <= c <= 191
            &&& n == 5760 || 8192 <= n <= 8202 || n == 8232 || n == 8233 || n == 8239 || n == 8287
                || n == 12288
        },
        blank_at_start(seq![a] + rest) == 1 <==> 9 <= a <= 13 || a == 32,
        blank_at_start(seq![a, b] + rest) == 2 <==> a == 194 && (b == 133 || b == 160),
        blank_at_start(seq![a, b, c] + rest) == 3 <==> is_wide_blank(a, b, c),
        blank_at_end(rest + seq![c]) == 1 <==> 9 <= c <= 13 || c == 32,
        blank_at_end(rest + seq![b, c]) == 2 <==> b == 194 && (c == 133 || c == 160),
        blank_at_end(rest + seq![a, b, c]) == 3 <==> is_wide_blank(a, b, c),
{
}

/// Blanks around a text make no difference, whatever their width.
pub proof fn trim_ignores_blanks(s: Seq<u8>, b: u8, wide: Seq<u8>)
    requires
        9 <= b <= 13 || b == 32,
    ensures
        trim(seq![b] + s) == trim(s),
        trim(s.push(b)) == trim(s),
        wide.len() > 0 && blank_at_start(wide) == wide.len() ==> trim(wide + s) == trim(s) && trim(
            s + wide,
        ) == trim(s),
{
    assert((seq![b] + s).skip(1) =~= s);
    lemma_trim_start_push(s, b);
    let t = trim_start(s);
    if t.len() == 0 {
        assert(t =~= Seq::<u8>::empty());
    } else {
        assert(t.push(b).take(t.len() as int) =~= t);
    }
    if wide.len() > 0 && blank_at_start(wide) == wide.len() {
        let w = wide + s;
        assert(w[0] == wide[0]);
        assert(wide.len() > 1 ==> w[1] == wide[1]);
        assert(wide.len() > 2 ==> w[2] == wide[2]);
        assert(blank_at_start(w) == wide.len());
        assert(w.skip(wide.len() as int) =~= s);
        lemma_trim_start_add(s, wide);
        if t.len() == 0 {
            assert(t =~= Seq::<u8>::empty());
        } else {
            lemma_blank_behind(t, wide);
            assert((t + wide).take(t.len() as int) =~= t);
        }
    }
}

/// A blank behind a text is the blank at its end.
proof fn lemma_blank_behind(s: Seq<u8>, wide: Seq<u8>)
    requires
        wide.len() > 0,
        blank_at_start(wide) == wide.len(),
    ensures
        blank_at_end(s + wide) == wide.len(),
{
    let w = s + wide;
    let n = w.len() as int;
    assert(w[n - 1] == wide[wide.len() - 1]);
    assert(wide.len() > 1 ==> w[n - 2] == wide[wide.len() - 2]);
    assert(wide.len() > 2 ==> w[n - 3] == wide[0]);
}

/// A blank behind a text is cut off at its start only where nothing else is left.
proof fn lemma_trim_start_add(s: Seq<u8>, wide: Seq<u8>)
    requires
        wide.len() > 0,
        blank_at_start(wide) == wide.len(),
    ensures
        trim_start(s + wide) == (if trim_start(s).len() == 0 {
            Seq::empty()
        } else {
            trim_start(s) + wide
        }),
    decreases s.len(),
{
    let t = s + wide;
    let n = blank_at_start(s);
    if s.len() == 0 {
        assert(t =~= wide);
        assert(wide.skip(wide.len() as int) =~= Seq::<u8>::empty());
        assert(trim_start(Seq::<u8>::empty()) =~= Seq::<u8>::empty());
    } else {
        assert(t[0] == s[0]);
        assert(s.len() > 1 ==> t[1] == s[1]);
        assert(s.len() > 2 ==> t[2] == s[2]);
        assert(s.len() == 1 ==> t[1] == wide[0]);
        assert(s.len() == 2 ==> t[2] == wide[0]);
        assert(blank_at_start(t) == n);
        if n > 0 {
            lemma_trim_start_add(s.skip(n), wide);
            assert(t.skip(n) =~= s.skip(n) + wide);
        }
    }
}

/// A blank of one byte behind a text is cut off at its start only where nothing else is left.
proof fn lemma_trim_start_push(s: Seq<u8>, b: u8)
    requires
        9 <= b <= 13 || b == 32,
    ensures
        trim_start(s.push(b)) == (if trim_start(s).len() == 0 {
            Seq::empty()
        } else {
            trim_start(s).push(b)
        }),
    decreases s.len(),
{
    let t = s.push(b);
    let n = blank_at_start(s);
    if s.len() == 0 {
        assert(t.skip(1) =~= Seq::<u8>::empty());
        assert(trim_start(t.skip(1)) =~= Seq::<u8>::empty());
    } else {
        assert(t[0] == s[0]);
        assert(s.len() > 1 ==> t[1] == s[1]);
        assert(s.len() > 2 ==> t[2] == s[2]);
        assert(blank_at_start(t) == n);
        if n > 0 {
            lemma_trim_start_push(s.skip(n), b);
            assert(t.skip(n) =~= s.skip(n).push(b));
        }
    }
}

proof fn lemma_trim_start(s: Seq<u8>)
    ensures
        trim_start(s).len() <= s.len(),
        trim_start(s) == s.skip(s.len() - trim_start(s).len()),
        blank_at_start(trim_start(s)) == 0,
    decreases s.len(),
{
    if blank_at_start(s) > 0 {
        let rest = s.skip(blank_at_start(s));
        lemma_trim_start(rest);
        assert(rest.skip(rest.len() - trim_start(rest).len()) =~= s.skip(
            s.len() - trim_start(rest).len(),
        ));
    } else {
        assert(s.skip(0) =~= s);
    }
}

proof fn lemma_trim_end(s: Seq<u8>)
    ensures
        trim_end(s).len() <= s.len(),
        trim_end(s) == s.take(trim_end(s).len() as int),
        blank_at_end(trim_end(s)) == 0,
    decreases s.len(),
{
    if blank_at_end(s) > 0 {
        let rest = s.take(s.len() - blank_at_end(s));
        lemma_trim_end(rest);
        assert(rest.take(trim_end(rest).len() as int) =~= s.take(trim_end(rest).len() as int));
    } else {
        assert(s.take(s.len() as int) =~= s);
    }
}

fn wide_blank(a: u8, b: u8, c: u8) -> (r: bool)
    ensures
        r == is_wide_blank(a, b, c),
{
    (a == 0xE1 && b == 0x9A && c == 0x80) || (a == 0xE2 && b == 0x80 && ((0x80 <= c && c <= 0x8A)
        || c == 0xA8 || c == 0xA9 || c == 0xAF)) || (a == 0xE2 && b == 0x81 && c == 0x9F) || (a
        == 0xE3 && b == 0x80 && c == 0x80)
}

/// Cuts the blanks off both ends.
pub fn trim_bytes(s: &[u8]) -> (r: &[u8])
    ensures
        r@ == trim(s@),
{
    let mut lo: usize = 0;
    let n: usize = s.len();
    assert(s@.skip(0) =~= s@);
    loop
        invariant
            lo <= n,
            n == s@.len(),
            trim_start(s@.skip(lo as int)) == trim_start(s@),
        ensures
            lo <= n,
            s@.skip(lo as int) == trim_start(s@),
        decreases n - lo,
    {
        let ghost rest = s@.skip(lo as int);
        let width: usize = if n - lo >= 1 && ((9 <= s[lo] && s[lo] <= 13) || s[lo] == 32) {
            1
        } else if n - lo >= 2 && s[lo] == 0xC2 && (s[lo + 1] == 0x85 || s[lo + 1] == 0xA0) {
            2
        } else if n - lo >= 3 && wide_blank(s[lo], s[lo + 1], s[lo + 2]) {
            3
        } else {
            0
        };
        assert(width == blank_at_start(rest));
        if width == 0 {
            break ;
        }
        assert(rest.skip(width as int) =~= s@.skip(lo + width));
        lo = lo + width;
    }
    let front: &[u8] = slice_subrange(s, lo, n);
    assert(front@ =~= s@.skip(lo as int));
    let mut hi: usize = front.len();
    assert(front@.take(hi as int) =~= front@);
    loop
        invariant
            hi <= front@.len(),
            trim_end(front@.take(hi as int)) == trim_end(front@),
        ensures
            hi <= front@.len(),
            front@.take(hi as int) == trim_end(front@),
        decreases hi,
    {
        let ghost rest = front@.take(hi as int);
        let width: usize = if hi >= 1 && ((9 <= front[hi - 1] && front[hi - 1] <= 13) || front[hi
            - 1] == 32) {
            1
        } else if hi >= 2 && front[hi - 2] == 0xC2 && (front[hi - 1] == 0x85 || front[hi - 1]
            == 0xA0) {
            2
        } else if hi >= 3 && wide_blank(front[hi - 3], front[hi - 2], front[hi - 1]) {
            3
        } else {
            0
        };
        assert(width == blank_at_end(rest));
        if width == 0 {
            break ;
        }
        assert(rest.take(rest.len() - width) =~= front@.take(hi - width));
        hi = hi - width;
    }
    let r: &[u8] = slice_subrange(front, 0, hi);
    assert(r@ =~= front@.take(hi as int));
    r
}

/// Compares two byte strings.
pub fn same_bytes(a: &[u8], b: &[u8]) -> (r: bool)
    ensures
        r == (a@ == b@),
{
    if a.len() != b.len() {
        return false;
    }
    let n: usize = a.len();
    let mut i: usize = 0;
    while i < n
        invariant
            0 <= i <= n,
            n == a@.len(),
            n == b@.len(),
            forall|j: int| 0 <= j < i ==> a@[j] == b@[j],
        decreases n - i,
    {
        if a[i] != b[i] {
            return false;
        }
        i = i + 1;
    }
    assert(a@ =~= b@);
    true
}

/// Compares two texts.
pub fn same_text(a: &str, b: &str) -> (r: bool)
    ensures
        r == (a@ == b@),
{
    proof {
        encode_utf8_decode_utf8(a@);
        encode_utf8_decode_utf8(b@);
    }
    same_bytes(a.as_bytes(), b.as_bytes())
}

/// One text behind another.
pub fn join_text(a: &str, b: &str) -> (r: String)
    ensures
        encode_utf8(r@) == encode_utf8(a@) + encode_utf8(b@),
{
    let mut bytes: Vec<u8> = Vec::new();
    bytes.extend_from_slice(a.as_bytes());
    bytes.extend_from_slice(b.as_bytes());
    proof {
        encode_utf8_valid_utf8(a@);
        encode_utf8_valid_utf8(b@);
        valid_utf8_concat(encode_utf8(a@), encode_utf8(b@));
        assert(bytes@ =~= encode_utf8(a@) + encode_utf8(b@));
    }
    utf8_string(bytes.as_slice())
}

/// Parts with a separator between them.
pub open spec fn joined(parts: Seq<Seq<u8>>, sep: u8) -> Seq<u8>
    decreases parts.len(),
{
    if parts.len() == 0 {
        Seq::empty()
    } else if parts.len() == 1 {
        parts[0]
    } else {
        joined(parts.drop_last(), sep).push(sep) + parts.last()
    }
}

/// The pieces of a text hold no separator, and with separators between them they are the text.
pub proof fn pieces_make_up_the_text(s: Seq<u8>, sep: u8)
    ensures
        joined(split_on(s, sep), sep) == s,
        forall|k: int, i: int|
            0 <= k < split_on(s, sep).len() && 0 <= i < split_on(s, sep)[k].len() ==> split_on(
                s,
                sep,
            )[k][i] != sep,
    decreases s.len(),
{
    let whole = split_on(s, sep);
    if s.len() == 0 {
        assert(joined(whole, sep) =~= s);
    } else {
        let t = s.drop_last();
        let front = split_on(t, sep);
        pieces_make_up_the_text(t, sep);
        lemma_split_nonempty(t, sep);
        if s.last() == sep {
            assert(whole.drop_last() =~= front);
            assert(joined(whole, sep) =~= s);
            assert forall|k: int, i: int|
                0 <= k < whole.len() && 0 <= i < whole[k].len() implies whole[k][i] != sep by {
                assert(k < front.len());
                assert(whole[k] == front[k]);
            }
        } else {
            assert(whole.last() == front.last().push(s.last()));
            if front.len() > 1 {
                assert(whole.drop_last() =~= front.drop_last());
                assert(joined(front, sep) == joined(front.drop_last(), sep).push(sep)
                    + front.last());
            } else {
                assert(joined(front, sep) == front[0]);
            }
            assert(joined(whole, sep) =~= joined(front, sep).push(s.last()));
            assert(t.push(s.last()) =~= s);
            assert forall|k: int, i: int|
                0 <= k < whole.len() && 0 <= i < whole[k].len() implies whole[k][i] != sep by {
                if k < front.len() - 1 {
                    assert(whole[k] == front[k]);
                } else if i < front[k].len() {
                    assert(whole[k][i] == front[k][i]);
                }
            }
        }
    }
}

/// Digits without a leading zero are the decimal spelling of their number.
pub proof fn digits_spell_one_number(s: Seq<u8>)
    requires
        s.len() > 0,
        all_digits(s),
        s.len() > 1 ==> s[0] != 48,
    ensures
        decimal_text(digits_value(s)) == s,
    decreases s.len(),
{
    let front = s.drop_last();
    assert(is_digit(s[s.len() - 1]));
    if s.len() == 1 {
        assert(digits_value(front) == 0);
        assert(decimal_text(digits_value(s)) =~= s);
    } else {
        assert forall|i: int| 0 <= i < front.len() implies is_digit(#[trigger] front[i]) by {
            assert(front[i] == s[i]);
        }
        digits_spell_one_number(front);
        lemma_digits_value_grows(front, 1);
        assert(is_digit(front[0]));
        assert(front.take(1).drop_last() =~= Seq::<u8>::empty());
        assert(digits_value(front.take(1).drop_last()) == 0);
        assert(digits_value(front.take(1)) == front[0] - 48);
        assert(decimal_text(digits_value(s)) =~= s);
    }
}

/// Hexadecimal digits of either case count by their place; numbers are spelled in lower case and
/// without leading zeros.
pub proof fn hex_numbers_by_place(s: Seq<u8>, b: u8, n: nat)
    ensures
        is_hex_digit(b) <==> 48 <= b <= 57 || 65 <= b <= 70 || 97 <= b <= 102,
        48 <= b <= 57 ==> hex_value(s.push(b)) == hex_value(s) * 16 + (b - 48),
        65 <= b <= 70 ==> hex_value(s.push(b)) == hex_value(s) * 16 + (b - 55),
        97 <= b <= 102 ==> hex_value(s.push(b)) == hex_value(s) * 16 + (b - 87),
        hex_value(Seq::empty()) == 0,
        n < 10 ==> hex_text(n) == seq![(48 + n) as u8],
        10 <= n < 16 ==> hex_text(n) == seq![(87 + n) as u8],
        n >= 16 && n % 16 < 10 ==> hex_text(n) == hex_text(n / 16).push((48 + n % 16) as u8),
        n >= 16 && n % 16 >= 10 ==> hex_text(n) == hex_text(n / 16).push((87 + n % 16) as u8),
{
    assert(s.push(b).drop_last() =~= s);
}

/// Parts without separators are the pieces of the text that they make up.
pub proof fn parts_are_the_pieces(parts: Seq<Seq<u8>>, sep: u8)
    requires
        parts.len() > 0,
        forall|k: int, i: int|
            0 <= k < parts.len() && 0 <= i < parts[k].len() ==> #[trigger] parts[k][i] != sep,
    ensures
        split_on(joined(parts, sep), sep) == parts,
    decreases parts.len(),
{
    let last = parts.last();
    assert(last == parts[parts.len() - 1]);
    lemma_split_single(last, sep);
    if parts.len() == 1 {
        assert(seq![last] =~= parts);
    } else {
        let front = parts.drop_last();
        assert forall|k: int, i: int|
            0 <= k < front.len() && 0 <= i < front[k].len() implies #[trigger] front[k][i]
            != sep by {
            assert(front[k] == parts[k]);
            assert(parts[k][i] != sep);
        }
        parts_are_the_pieces(front, sep);
        lemma_split_join(joined(front, sep), sep, last);
        assert(front + seq![last] =~= parts);
    }
}

} // verus!
