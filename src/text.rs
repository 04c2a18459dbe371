//! Decoding of the operator's tokens: numbers in decimal or `0x` hexadecimal,
//! and byte literals written as `\xHH` groups.

use vstd::prelude::*;

verus! {

/// ASCII `0`.
pub const ZERO: u8 = 48;

/// ASCII `x`.
pub const LOWER_X: u8 = 120;

/// ASCII backslash.
pub const BACKSLASH: u8 = 92;

pub open spec fn is_dec_digit(c: u8) -> bool {
    48 <= c <= 57
}

pub open spec fn is_lower_hex_letter(c: u8) -> bool {
    97 <= c <= 102
}

pub open spec fn is_upper_hex_letter(c: u8) -> bool {
    65 <= c <= 70
}

pub open spec fn is_hex_digit(c: u8) -> bool {
    is_dec_digit(c) || is_lower_hex_letter(c) || is_upper_hex_letter(c)
}

/// The value of a digit character, in either letter case.
pub open spec fn digit_value(c: u8) -> nat {
    if is_dec_digit(c) {
        (c - 48) as nat
    } else if is_lower_hex_letter(c) {
        (c - 87) as nat
    } else if is_upper_hex_letter(c) {
        (c - 55) as nat
    } else {
        0
    }
}

/// Whether `c` is a digit in base `radix` (10 or 16).
pub open spec fn is_digit_in(c: u8, radix: nat) -> bool {
    if radix == 16 {
        is_hex_digit(c)
    } else {
        is_dec_digit(c)
    }
}

pub open spec fn all_digits_in(s: Seq<u8>, radix: nat) -> bool {
    forall|i: int| 0 <= i < s.len() ==> is_digit_in(#[trigger] s[i], radix)
}

/// The number that a string of digits denotes, most significant digit first.
pub open spec fn digits_value(s: Seq<u8>, radix: nat) -> nat
    decreases s.len(),
{
    if s.len() == 0 {
        0
    } else {
        radix * digits_value(s.drop_last(), radix) + digit_value(s.last())
    }
}

/// The number denoted by a non-empty string of digits in base `radix`;
/// `None` for an empty string or one holding any other character.
pub open spec fn radix_value(s: Seq<u8>, radix: nat) -> Option<nat> {
    if s.len() > 0 && all_digits_in(s, radix) {
        Some(digits_value(s, radix))
    } else {
        None
    }
}

pub open spec fn has_hex_prefix(s: Seq<u8>) -> bool {
    s.len() >= 2 && s[0] == ZERO && s[1] == LOWER_X
}

/// An address token: hexadecimal after a `0x` prefix, decimal otherwise.
pub open spec fn number_value(s: Seq<u8>) -> Option<nat> {
    if has_hex_prefix(s) {
        radix_value(s.skip(2), 16)
    } else {
        radix_value(s, 10)
    }
}

/// A number kept only where it fits in a `u64`.
pub open spec fn within_u64(v: Option<nat>) -> Option<u64> {
    match v {
        Some(n) => if n <= u64::MAX {
            Some(n as u64)
        } else {
            None
        },
        None => None,
    }
}

proof fn lemma_prefix_value_le(s: Seq<u8>, j: int, radix: nat)
    requires
        0 <= j <= s.len(),
        radix >= 1,
    ensures
        digits_value(s.take(j), radix) <= digits_value(s, radix),
    decreases s.len(),
{
    if j < s.len() {
        let t = s.drop_last();
        lemma_prefix_value_le(t, j, radix);
        assert(t.take(j) =~= s.take(j));
        let x = digits_value(t, radix);
        assert(radix * x >= x) by (nonlinear_arith)
            requires
                radix >= 1,
        ;
    } else {
        assert(s.take(j) =~= s);
    }
}

fn is_digit_exec(c: u8, radix: u64) -> (r: bool)
    requires
        radix == 10 || radix == 16,
    ensures
        r == is_digit_in(c, radix as nat),
{
    if radix == 16 {
        (48 <= c && c <= 57) || (97 <= c && c <= 102) || (65 <= c && c <= 70)
    } else {
        48 <= c && c <= 57
    }
}

fn digit_value_exec(c: u8) -> (r: u64)
    requires
        is_hex_digit(c),
    ensures
        r == digit_value(c),
        r < 16,
{
    if c <= 57 {
        (c - 48) as u64
    } else if c >= 97 {
        (c - 87) as u64
    } else {
        (c - 55) as u64
    }
}

/// Parses `s[start..]` as digits in base `radix`.
pub fn parse_digits(s: &[u8], start: usize, radix: u64) -> (r: Option<u64>)
    requires
        start <= s@.len(),
        radix == 10 || radix == 16,
    ensures
        r == within_u64(radix_value(s@.subrange(start as int, s@.len() as int), radix as nat)),
{
    let ghost whole = s@.subrange(start as int, s@.len() as int);
    if start == s.len() {
        return None;
    }
    let mut v: u64 = 0;
    let mut i: usize = start;
    while i < s.len()
        invariant
            start <= i <= s@.len(),
            radix == 10 || radix == 16,
            whole == s@.subrange(start as int, s@.len() as int),
            whole.len() > 0,
            all_digits_in(s@.subrange(start as int, i as int), radix as nat),
            v == digits_value(s@.subrange(start as int, i as int), radix as nat),
        decreases s@.len() - i,
    {
        let c = s[i];
        if !is_digit_exec(c, radix) {
            assert(whole[i - start] == c);
            return None;
        }
        let d = digit_value_exec(c);
        let ghost next = s@.subrange(start as int, i + 1);
        assert(next.drop_last() =~= s@.subrange(start as int, i as int));
        assert(all_digits_in(next, radix as nat)) by {
            assert forall|k: int| 0 <= k < next.len() implies is_digit_in(#[trigger] next[k], radix as nat) by {
                if k < next.len() - 1 {
                    assert(next[k] == s@.subrange(start as int, i as int)[k]);
                }
            }
        }
        assert(next.last() == c);
        proof {
            lemma_prefix_value_le(whole, i + 1 - start, radix as nat);
            assert(whole.take(i + 1 - start) =~= next);
        }
        match v.checked_mul(radix) {
            None => {
                assert(radix * v > u64::MAX);
                return None;
            },
            Some(m) => match m.checked_add(d) {
                None => {
                    return None;
                },
                Some(n) => {
                    v = n;
                },
            },
        }
        i = i + 1;
    }
    assert(s@.subrange(start as int, i as int) =~= whole);
    Some(v)
}

/// Parses an address token: hexadecimal after a `0x` prefix, decimal otherwise.
pub fn parse_number(s: &[u8]) -> (r: Option<u64>)
    ensures
        r == within_u64(number_value(s@)),
{
    if s.len() >= 2 && s[0] == ZERO && s[1] == LOWER_X {
        assert(s@.subrange(2, s@.len() as int) =~= s@.skip(2));
        parse_digits(s, 2, 16)
    } else {
        assert(s@.subrange(0, s@.len() as int) =~= s@);
        parse_digits(s, 0, 10)
    }
}

/// Whether a byte literal holds a `\x` marker and two hex digits at `j`.
pub open spec fn group_at(s: Seq<u8>, j: int) -> bool {
    0 <= j && j + 4 <= s.len() && s[j] == BACKSLASH && s[j + 1] == LOWER_X && is_hex_digit(s[j + 2])
        && is_hex_digit(s[j + 3])
}

/// The byte written by the two hex digits `hi` and `lo`.
pub open spec fn group_byte(hi: u8, lo: u8) -> u8 {
    (16 * digit_value(hi) + digit_value(lo)) as u8
}

/// The bytes of a run of `\xHH` groups; `None` where the run breaks the form.
pub open spec fn groups_value(s: Seq<u8>) -> Option<Seq<u8>>
    decreases s.len(),
{
    if s.len() == 0 {
        Some(Seq::empty())
    } else if group_at(s, 0) {
        match groups_value(s.skip(4)) {
            Some(r) => Some(seq![group_byte(s[2], s[3])] + r),
            None => None,
        }
    } else {
        None
    }
}

/// The bytes of a write literal: one or more `\xHH` groups.
pub open spec fn literal_value(s: Seq<u8>) -> Option<Seq<u8>> {
    if s.len() == 0 {
        None
    } else {
        groups_value(s)
    }
}

pub open spec fn prepend(p: Seq<u8>, o: Option<Seq<u8>>) -> Option<Seq<u8>> {
    match o {
        Some(r) => Some(p + r),
        None => None,
    }
}

/// Decodes a write literal such as `\x90\x90` into its bytes.
pub fn decode_literal(s: &[u8]) -> (r: Option<Vec<u8>>)
    ensures
        match r {
            Some(v) => literal_value(s@) == Some(v@),
            None => literal_value(s@) is None,
        },
{
    if s.len() == 0 {
        return None;
    }
    let mut out: Vec<u8> = Vec::new();
    let mut j: usize = 0;
    assert(s@.skip(0) =~= s@);
    assert(out@ + s@ =~= s@);
    while j < s.len()
        invariant
            j <= s@.len(),
            s@.len() > 0,
            groups_value(s@) == prepend(out@, groups_value(s@.skip(j as int))),
        decreases s@.len() - j,
    {
        let ghost rest = s@.skip(j as int);
        if s.len() - j >= 4 && s[j] == BACKSLASH && s[j + 1] == LOWER_X && is_digit_exec(s[j + 2], 16)
            && is_digit_exec(s[j + 3], 16) {
            let hi = digit_value_exec(s[j + 2]);
            let lo = digit_value_exec(s[j + 3]);
            let b: u8 = (16 * hi + lo) as u8;
            assert(group_at(rest, 0));
            assert(rest.skip(4) =~= s@.skip(j + 4));
            assert(b == group_byte(rest[2], rest[3]));
            let ghost old_out = out@;
            out.push(b);
            proof {
                match groups_value(s@.skip(j + 4)) {
                    Some(r) => {
                        assert(old_out + (seq![b] + r) =~= out@ + r);
                    },
                    None => {},
                }
            }
            j = j + 4;
        } else {
            assert(!group_at(rest, 0));
            return None;
        }
    }
    assert(s@.skip(j as int) =~= Seq::<u8>::empty());
    assert(out@ + Seq::<u8>::empty() =~= out@);
    Some(out)
}

/// The lower-case hex digit for `d < 16`.
pub open spec fn hex_char(d: nat) -> u8 {
    if d < 10 {
        (48 + d) as u8
    } else {
        (87 + d) as u8
    }
}

/// The lower-case write literal of a byte sequence, two digits per byte.
pub open spec fn literal_of(bytes: Seq<u8>) -> Seq<u8>
    decreases bytes.len(),
{
    if bytes.len() == 0 {
        Seq::empty()
    } else {
        seq![BACKSLASH, LOWER_X, hex_char(bytes[0] as nat / 16), hex_char(bytes[0] as nat % 16)]
            + literal_of(bytes.drop_first())
    }
}

/// The lower-case hexadecimal digits of a number, without leading zeros.
pub open spec fn hex_text(n: nat) -> Seq<u8>
    decreases n,
{
    if n < 16 {
        seq![hex_char(n)]
    } else {
        hex_text(n / 16).push(hex_char(n % 16))
    }
}

pub open spec fn no_upper_hex(s: Seq<u8>) -> bool {
    forall|i: int| 0 <= i < s.len() ==> !is_upper_hex_letter(#[trigger] s[i])
}

proof fn lemma_hex_char(d: nat)
    requires
        d < 16,
    ensures
        is_hex_digit(hex_char(d)),
        !is_upper_hex_letter(hex_char(d)),
        digit_value(hex_char(d)) == d,
{
}

proof fn lemma_hex_char_of_digit(c: u8)
    requires
        is_hex_digit(c),
        !is_upper_hex_letter(c),
    ensures
        digit_value(c) < 16,
        hex_char(digit_value(c)) == c,
{
}

/// A byte literal of `n` groups decodes to `n` bytes, the `i`-th byte being the
/// value of the `i`-th group's two hex digits.
pub proof fn lemma_literal_groups(s: Seq<u8>)
    requires
        groups_value(s) is Some,
    ensures
        s.len() == 4 * groups_value(s)->0.len(),
        forall|i: int|
            0 <= i < groups_value(s)->0.len() ==> #[trigger] groups_value(s)->0[i] == group_byte(
                s[4 * i + 2],
                s[4 * i + 3],
            ),
    decreases s.len(),
{
    if s.len() > 0 {
        let t = s.skip(4);
        lemma_literal_groups(t);
        let v = groups_value(s)->0;
        let r = groups_value(t)->0;
        assert(v == seq![group_byte(s[2], s[3])] + r);
        assert(v.len() == r.len() + 1);
        assert forall|i: int| 0 <= i < v.len() implies #[trigger] v[i] == group_byte(
            s[4 * i + 2],
            s[4 * i + 3],
        ) by {
            if i == 0 {
                assert(group_at(s, 0));
                assert(v[0] == group_byte(s[2], s[3]));
            } else {
                assert(v[i] == r[i - 1]);
                assert(t[4 * (i - 1) + 2] == s[4 * i + 2]);
                assert(t[4 * (i - 1) + 3] == s[4 * i + 3]);
            }
        }
    } else {
        assert(groups_value(s)->0.len() == 0);
    }
}

/// Writing bytes as a lower-case literal and decoding it gives the bytes back.
pub proof fn lemma_literal_round_trip(bytes: Seq<u8>)
    requires
        bytes.len() > 0,
    ensures
        literal_value(literal_of(bytes)) == Some(bytes),
        literal_of(bytes).len() == 4 * bytes.len(),
{
    lemma_groups_round_trip(bytes);
}

proof fn lemma_groups_round_trip(bytes: Seq<u8>)
    ensures
        groups_value(literal_of(bytes)) == Some(bytes),
        literal_of(bytes).len() == 4 * bytes.len(),
        no_upper_hex(literal_of(bytes)),
    decreases bytes.len(),
{
    if bytes.len() > 0 {
        let s = literal_of(bytes);
        let tail = bytes.drop_first();
        lemma_groups_round_trip(tail);
        let x = bytes[0] as nat;
        lemma_hex_char(x / 16);
        lemma_hex_char(x % 16);
        assert(s.skip(4) =~= literal_of(tail));
        assert(16 * (x / 16) + x % 16 == x);
        assert(group_byte(s[2], s[3]) == bytes[0]);
        assert(seq![bytes[0]] + tail =~= bytes);
        assert forall|i: int| 0 <= i < s.len() implies !is_upper_hex_letter(#[trigger] s[i]) by {
            if i >= 4 {
                assert(s[i] == literal_of(tail)[i - 4]);
            }
        }
    }
}

/// A lower-case literal is the one that `literal_of` writes for its bytes.
proof fn lemma_literal_canonical(s: Seq<u8>)
    requires
        groups_value(s) is Some,
        no_upper_hex(s),
    ensures
        s == literal_of(groups_value(s)->0),
    decreases s.len(),
{
    if s.len() > 0 {
        let t = s.skip(4);
        assert(no_upper_hex(t)) by {
            assert forall|i: int| 0 <= i < t.len() implies !is_upper_hex_letter(#[trigger] t[i]) by {
                assert(t[i] == s[i + 4]);
            }
        }
        lemma_literal_canonical(t);
        let v = groups_value(s)->0;
        let r = groups_value(t)->0;
        assert(!is_upper_hex_letter(s[2]));
        assert(!is_upper_hex_letter(s[3]));
        lemma_hex_char_of_digit(s[2]);
        lemma_hex_char_of_digit(s[3]);
        let a = digit_value(s[2]);
        let c = digit_value(s[3]);
        let b = group_byte(s[2], s[3]);
        assert(b as nat == 16 * a + c);
        assert((16 * a + c) / 16 == a && (16 * a + c) % 16 == c) by (nonlinear_arith)
            requires
                a < 16,
                c < 16,
        ;
        assert(v[0] == b);
        assert(v.drop_first() =~= r);
        assert(s =~= seq![BACKSLASH, LOWER_X, s[2], s[3]] + t);
    }
}

/// Two lower-case write literals that decode to the same bytes are the same text.
pub proof fn lemma_literal_injective(a: Seq<u8>, b: Seq<u8>)
    requires
        literal_value(a) is Some,
        literal_value(a) == literal_value(b),
        no_upper_hex(a),
        no_upper_hex(b),
    ensures
        a == b,
{
    lemma_literal_canonical(a);
    lemma_literal_canonical(b);
}

proof fn lemma_hex_text(n: nat)
    ensures
        hex_text(n).len() > 0,
        all_digits_in(hex_text(n), 16),
        digits_value(hex_text(n), 16) == n,
    decreases n,
{
    lemma_hex_char(n % 16);
    if n >= 16 {
        lemma_hex_text(n / 16);
        let h = hex_text(n);
        assert(h.drop_last() =~= hex_text(n / 16));
        assert forall|i: int| 0 <= i < h.len() implies is_digit_in(#[trigger] h[i], 16) by {
            if i < h.len() - 1 {
                assert(h[i] == hex_text(n / 16)[i]);
            }
        }
        assert(h.last() == hex_char(n % 16));
        assert(digits_value(h, 16) == 16 * digits_value(h.drop_last(), 16) + digit_value(h.last()));
        assert(digits_value(h.drop_last(), 16) == n / 16);
        assert(digit_value(h.last()) == n % 16);
        assert(16 * (n / 16) + n % 16 == n);
    } else {
        lemma_hex_char(n);
        assert(hex_text(n).drop_last() =~= Seq::<u8>::empty());
        assert(digits_value(Seq::<u8>::empty(), 16) == 0);
    }
}

/// A decimal token and the `0x` token of the same number's hexadecimal digits
/// denote the same number.
pub proof fn lemma_decimal_matches_hex(d: Seq<u8>)
    requires
        d.len() > 0,
        all_digits_in(d, 10),
    ensures
        number_value(d) == Some(digits_value(d, 10)),
        number_value(seq![ZERO, LOWER_X] + hex_text(digits_value(d, 10))) == number_value(d),
{
    let n = digits_value(d, 10);
    lemma_hex_text(n);
    let h = seq![ZERO, LOWER_X] + hex_text(n);
    assert(h.skip(2) =~= hex_text(n));
    if d.len() >= 2 {
        assert(is_dec_digit(d[1]));
    }
}

} // verus!
