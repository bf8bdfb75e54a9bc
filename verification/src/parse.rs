//! The textual grammars the gateway accepts: decimal integers, fixed-point
//! amounts, and the url-encoded query strings that carry them.
//!
//! Everything here works on bytes. Each accepted form is written down as a
//! spec-level grammar, and each executable parser is proved to accept
//! exactly that grammar and to return exactly the value the grammar gives.

use vstd::prelude::*;
use vstd::string::StringSliceAdditionalSpecFns;

verus! {

/// An ASCII decimal digit, `'0'` (48) through `'9'` (57).
pub open spec fn is_digit(b: u8) -> bool {
    48 <= b && b <= 57
}

/// The numeric value of one digit byte.
pub open spec fn digit_val(b: u8) -> int {
    b - 48
}

/// Every byte of `s` is a digit.
pub open spec fn all_digits(s: Seq<u8>) -> bool {
    forall|i: int| 0 <= i < s.len() ==> is_digit(s[i])
}

/// The value of a digit string read most-significant first.
pub open spec fn digits_val(s: Seq<u8>) -> int
    decreases s.len(),
{
    if s.len() == 0 {
        0
    } else {
        digits_val(s.drop_last()) * 10 + digit_val(s.last())
    }
}

/// A non-empty, all-digit string.
pub open spec fn valid_uint(s: Seq<u8>) -> bool {
    s.len() > 0 && all_digits(s)
}

/// The integer grammar: an optional sign (`'+'` is 43, `'-'` is 45)
/// followed by one or more digits. `None` for anything else; otherwise the
/// signed value, unbounded.
pub open spec fn spec_parse_int(s: Seq<u8>) -> Option<int> {
    if s.len() > 0 && (s[0] == 43 || s[0] == 45) {
        if valid_uint(s.drop_first()) {
            if s[0] == 45 {
                Some(-digits_val(s.drop_first()))
            } else {
                Some(digits_val(s.drop_first()))
            }
        } else {
            None
        }
    } else {
        if valid_uint(s) {
            Some(digits_val(s))
        } else {
            None
        }
    }
}

/// The value of a digit string is never negative.
pub proof fn lemma_digits_val_nonneg(s: Seq<u8>)
    requires
        all_digits(s),
    ensures
        digits_val(s) >= 0,
    decreases s.len(),
{
    if s.len() > 0 {
        assert(all_digits(s.drop_last()));
        lemma_digits_val_nonneg(s.drop_last());
    }
}

/// Reading more digits never shrinks the value: any prefix is a lower
/// bound for the whole string.
pub proof fn lemma_digits_val_take_le(s: Seq<u8>, k: int)
    requires
        all_digits(s),
        0 <= k <= s.len(),
    ensures
        digits_val(s.take(k)) <= digits_val(s),
    decreases s.len(),
{
    if k == s.len() {
        assert(s.take(k) =~= s);
    } else {
        assert(all_digits(s.drop_last()));
        lemma_digits_val_nonneg(s.drop_last());
        assert(s.take(k) =~= s.drop_last().take(k));
        lemma_digits_val_take_le(s.drop_last(), k);
    }
}

/// Parses a decimal integer that fits an `i32`: exactly the strings of the
/// integer grammar whose value is in range, with exactly that value.
pub fn parse_i32(s: &[u8]) -> (r: Option<i32>)
    ensures
        match spec_parse_int(s@) {
            Some(v) => if i32::MIN <= v <= i32::MAX {
                r == Some(v as i32)
            } else {
                r is None
            },
            None => r is None,
        },
{
    let n = s.len();
    if n == 0 {
        return None;
    }
    let first = s[0];
    let neg = first == 45;
    let start: usize = if first == 45 || first == 43 {
        1
    } else {
        0
    };
    if start >= n {
        return None;
    }
    let ghost d = s@.skip(start as int);
    proof {
        if start == 1 {
            assert(d =~= s@.drop_first());
        } else {
            assert(d =~= s@);
        }
        assert(d.len() > 0);
    }
    let mut acc: u64 = 0;
    let mut i = start;
    while i < n
        invariant
            start <= i <= n,
            n == s@.len(),
            start < n,
            start <= 1,
            d == s@.skip(start as int),
            start == 1 <==> (s@[0] == 43 || s@[0] == 45),
            neg == (s@[0] == 45),
            acc == digits_val(s@.subrange(start as int, i as int)),
            all_digits(s@.subrange(start as int, i as int)),
            acc <= 0x8000_0000u64,
        decreases n - i,
    {
        let b = s[i];
        if b < 48 || b > 57 {
            proof {
                assert(d[i - start] == s@[i as int]);
                assert(!is_digit(s@[i as int]));
                assert(!all_digits(d));
            }
            return None;
        }
        proof {
            assert(s@.subrange(start as int, i + 1).drop_last() =~= s@.subrange(
                start as int,
                i as int,
            ));
            assert(s@.subrange(start as int, i + 1).last() == s@[i as int]);
        }
        acc = acc * 10 + ((b - 48) as u64);
        i += 1;
        if acc > 0x8000_0000u64 {
            proof {
                if all_digits(d) {
                    assert(s@.subrange(start as int, i as int) =~= d.take(i - start));
                    lemma_digits_val_take_le(d, i - start);
                    lemma_digits_val_nonneg(d);
                    assert(digits_val(d) >= acc);
                    assert(digits_val(d) > 0x8000_0000);
                    if start == 1 {
                        assert(valid_uint(s@.drop_first()));
                        assert(spec_parse_int(s@) is Some);
                    } else {
                        assert(d =~= s@);
                        assert(spec_parse_int(s@) == Some(digits_val(s@)));
                    }
                } else {
                    assert(spec_parse_int(s@) is None);
                }
            }
            return None;
        }
    }
    proof {
        assert(s@.subrange(start as int, n as int) =~= d);
    }
    if neg {
        Some((-(acc as i64)) as i32)
    } else {
        if acc > 0x7fff_ffffu64 {
            return None;
        }
        Some(acc as i32)
    }
}

/// The position of the first occurrence of `b` in `s`, or `s.len()` if `b`
/// does not occur.
pub open spec fn first_index_of(s: Seq<u8>, b: u8) -> int
    decreases s.len(),
{
    if s.len() == 0 {
        0
    } else if s[0] == b {
        0
    } else {
        1 + first_index_of(s.drop_first(), b)
    }
}

/// What `first_index_of` returns: everything before it differs from `b`,
/// and it points at `b` unless `b` is absent.
pub proof fn lemma_first_index_of(s: Seq<u8>, b: u8)
    ensures
        0 <= first_index_of(s, b) <= s.len(),
        forall|k: int| 0 <= k < first_index_of(s, b) ==> s[k] != b,
        first_index_of(s, b) < s.len() ==> s[first_index_of(s, b)] == b,
    decreases s.len(),
{
    if s.len() > 0 && s[0] != b {
        lemma_first_index_of(s.drop_first(), b);
        assert forall|k: int| 0 <= k < first_index_of(s, b) implies s[k] != b by {
            if k > 0 {
                assert(s.drop_first()[k - 1] == s[k]);
            }
        }
        if first_index_of(s, b) < s.len() {
            assert(s.drop_first()[first_index_of(s.drop_first(), b)] == s[first_index_of(s, b)]);
        }
    }
}

/// A position with those two properties is `first_index_of`.
pub proof fn lemma_first_index_of_is(s: Seq<u8>, b: u8, j: int)
    requires
        0 <= j <= s.len(),
        forall|k: int| 0 <= k < j ==> s[k] != b,
        j < s.len() ==> s[j] == b,
    ensures
        first_index_of(s, b) == j,
{
    lemma_first_index_of(s, b);
    let f = first_index_of(s, b);
    if f < j {
        assert(s[f] != b);
        assert(s[f] == b);
    }
    if f > j {
        assert(j < s.len());
        assert(s[j] != b);
    }
}

/// The value of at most two fraction digits, in hundredths: one digit
/// counts tens of hundredths, two digits count hundredths exactly.
pub open spec fn frac_scaled(f: Seq<u8>) -> int {
    if f.len() == 0 {
        0
    } else if f.len() == 1 {
        digit_val(f[0]) * 10
    } else {
        digit_val(f[0]) * 10 + digit_val(f[1])
    }
}

/// The amount grammar: one or more digits, optionally followed by a dot
/// (46) and at most two fraction digits. The value is in hundredths of a
/// coin, unbounded; anything else — a sign, an exponent, a second dot, too
/// many fraction digits — is `None`.
pub open spec fn spec_parse_amount(s: Seq<u8>) -> Option<int> {
    let d = first_index_of(s, 46);
    if !(0 < d && all_digits(s.take(d))) {
        None
    } else if d == s.len() {
        Some(digits_val(s.take(d)) * 100)
    } else {
        let fp = s.skip(d + 1);
        if all_digits(fp) && fp.len() <= 2 {
            Some(digits_val(s.take(d)) * 100 + frac_scaled(fp))
        } else {
            None
        }
    }
}

/// Parses a fixed-point amount that fits a `u64`: exactly the strings of
/// the amount grammar whose value in hundredths is in range, with exactly
/// that value.
pub fn parse_amount(s: &[u8]) -> (r: Option<u64>)
    ensures
        match spec_parse_amount(s@) {
            Some(v) => if v <= u64::MAX {
                r == Some(v as u64)
            } else {
                r is None
            },
            None => r is None,
        },
{
    let n = s.len();
    let mut j: usize = 0;
    while j < n && s[j] != 46
        invariant
            0 <= j <= n,
            n == s@.len(),
            forall|k: int| 0 <= k < j ==> s@[k] != 46,
        decreases n - j,
    {
        j += 1;
    }
    proof {
        lemma_first_index_of_is(s@, 46, j as int);
    }
    if j == 0 {
        return None;
    }
    let ghost ip = s@.take(j as int);
    let mut acc: u64 = 0;
    let mut k: usize = 0;
    while k < j
        invariant
            0 <= k <= j <= n,
            n == s@.len(),
            j == first_index_of(s@, 46),
            j > 0,
            ip == s@.take(j as int),
            acc == digits_val(s@.take(k as int)),
            all_digits(s@.take(k as int)),
            acc <= 184467440737095516u64,
        decreases j - k,
    {
        let b = s[k];
        if b < 48 || b > 57 {
            proof {
                assert(ip[k as int] == s@[k as int]);
                assert(!all_digits(ip));
            }
            return None;
        }
        proof {
            assert(s@.take(k + 1).drop_last() =~= s@.take(k as int));
            assert(s@.take(k + 1).last() == s@[k as int]);
        }
        acc = acc * 10 + ((b - 48) as u64);
        k += 1;
        if acc > 184467440737095516u64 {
            proof {
                if all_digits(ip) {
                    assert(s@.take(k as int) =~= ip.take(k as int));
                    lemma_digits_val_take_le(ip, k as int);
                    lemma_digits_val_nonneg(ip);
                    assert(digits_val(ip) >= acc);
                    if j < n && s@.skip(j + 1).len() <= 2 && all_digits(s@.skip(j + 1)) {
                        assert(frac_scaled(s@.skip(j + 1)) >= 0);
                    }
                }
            }
            return None;
        }
    }
    proof {
        assert(s@.take(j as int) == ip);
        assert(all_digits(ip));
        assert(acc == digits_val(ip));
    }
    let base = acc * 100;
    if j == n {
        return Some(base);
    }
    let fl = n - j - 1;
    if fl > 2 {
        return None;
    }
    let mut fr: u64 = 0;
    if fl >= 1 {
        let b1 = s[j + 1];
        if b1 < 48 || b1 > 57 {
            proof {
                assert(s@.skip(j + 1)[0] == s@[j + 1]);
            }
            return None;
        }
        fr = ((b1 - 48) as u64) * 10;
        if fl == 2 {
            let b2 = s[j + 2];
            if b2 < 48 || b2 > 57 {
                proof {
                    assert(s@.skip(j + 1)[1] == s@[j + 2]);
                }
                return None;
            }
            fr = fr + ((b2 - 48) as u64);
        }
    }
    proof {
        let fp = s@.skip(j + 1);
        assert(fp.len() == n - j - 1);
        assert forall|t: int| 0 <= t < fp.len() implies is_digit(fp[t]) by {
            assert(fp[t] == s@[j + 1 + t]);
        }
        assert(frac_scaled(fp) == fr);
    }
    if fr > u64::MAX - base {
        return None;
    }
    Some(base + fr)
}

/// An ASCII hexadecimal digit: `0`-`9`, `a`-`f` (97-102), `A`-`F` (65-70).
pub open spec fn is_hex_digit(b: u8) -> bool {
    is_digit(b) || (97 <= b && b <= 102) || (65 <= b && b <= 70)
}

/// The numeric value of one hexadecimal digit byte.
pub open spec fn hex_val(b: u8) -> int {
    if is_digit(b) {
        b - 48
    } else if 97 <= b && b <= 102 {
        b - 87
    } else {
        b - 55
    }
}

/// Url-decoding of one query component: `+` (43) becomes a space (32), `%`
/// (37) followed by two hexadecimal digits becomes that byte, and anything
/// else — an incomplete or malformed escape included — passes through
/// unchanged.
pub open spec fn decode_component(s: Seq<u8>) -> Seq<u8>
    decreases s.len(),
{
    if s.len() == 0 {
        Seq::<u8>::empty()
    } else if s[0] == 43 {
        seq![32u8] + decode_component(s.drop_first())
    } else if s[0] == 37 && s.len() >= 3 && is_hex_digit(s[1]) && is_hex_digit(s[2]) {
        seq![(hex_val(s[1]) * 16 + hex_val(s[2])) as u8] + decode_component(s.skip(3))
    } else {
        seq![s[0]] + decode_component(s.drop_first())
    }
}

/// The value of one hexadecimal digit byte, or `None` for any other byte.
fn hex_val_of(b: u8) -> (r: Option<u8>)
    ensures
        r is Some <==> is_hex_digit(b),
        match r {
            Some(h) => h as int == hex_val(b),
            None => true,
        },
{
    if 48 <= b && b <= 57 {
        Some(b - 48)
    } else if 97 <= b && b <= 102 {
        Some(b - 87)
    } else if 65 <= b && b <= 70 {
        Some(b - 55)
    } else {
        None
    }
}

/// Url-decodes one query component, exactly as [`decode_component`] says.
pub fn percent_decode(s: &[u8]) -> (r: Vec<u8>)
    ensures
        r@ == decode_component(s@),
{
    let n = s.len();
    let mut out: Vec<u8> = Vec::new();
    let mut i: usize = 0;
    proof {
        assert(s@.skip(0) =~= s@);
    }
    while i < n
        invariant
            0 <= i <= n,
            n == s@.len(),
            decode_component(s@) == out@ + decode_component(s@.skip(i as int)),
        decreases n - i,
    {
        let ghost rest = s@.skip(i as int);
        proof {
            assert(rest[0] == s@[i as int]);
            assert(rest.drop_first() =~= s@.skip(i + 1));
        }
        let ghost out0 = out@;
        let b = s[i];
        if b == 43 {
            out.push(32);
            i += 1;
            proof {
                assert(decode_component(rest) == seq![32u8] + decode_component(
                    s@.skip(i as int),
                ));
                assert(out0 + decode_component(rest) =~= out@ + decode_component(
                    s@.skip(i as int),
                ));
            }
        } else if b == 37 && n - i > 2 {
            proof {
                assert(rest.len() >= 3);
                assert(rest[1] == s@[i + 1]);
                assert(rest[2] == s@[i + 2]);
            }
            let h1 = hex_val_of(s[i + 1]);
            let h2 = hex_val_of(s[i + 2]);
            match (h1, h2) {
                (Some(v1), Some(v2)) => {
                    out.push(v1 * 16 + v2);
                    i += 3;
                    proof {
                        assert(rest.skip(3) =~= s@.skip(i as int));
                        assert(decode_component(rest) == seq![
                            (hex_val(rest[1]) * 16 + hex_val(rest[2])) as u8,
                        ] + decode_component(s@.skip(i as int)));
                        assert(out0 + decode_component(rest) =~= out@ + decode_component(
                            s@.skip(i as int),
                        ));
                    }
                },
                _ => {
                    out.push(b);
                    i += 1;
                    proof {
                        assert(decode_component(rest) == seq![rest[0]] + decode_component(
                            s@.skip(i as int),
                        ));
                        assert(out0 + decode_component(rest) =~= out@ + decode_component(
                            s@.skip(i as int),
                        ));
                    }
                },
            }
        } else {
            out.push(b);
            i += 1;
            proof {
                if b == 43 {
                } else if b == 37 {
                    assert(rest.len() < 3 || !(is_hex_digit(rest[1]) && is_hex_digit(rest[2])));
                }
                assert(decode_component(rest) == seq![rest[0]] + decode_component(
                    s@.skip(i as int),
                ));
                assert(out0 + decode_component(rest) =~= out@ + decode_component(
                    s@.skip(i as int),
                ));
            }
        }
    }
    proof {
        assert(s@.skip(n as int) =~= Seq::<u8>::empty());
        assert(decode_component(Seq::<u8>::empty()) =~= Seq::<u8>::empty());
        assert(out@ + Seq::<u8>::empty() =~= out@);
    }
    out
}

/// Lower-cases one ASCII byte: `A`-`Z` (65-90) gain 32, all else is kept.
pub open spec fn to_lower(b: u8) -> u8 {
    if 65 <= b && b <= 90 {
        (b + 32) as u8
    } else {
        b
    }
}

/// `s` lower-cased byte by byte.
pub open spec fn lower_seq(s: Seq<u8>) -> Seq<u8> {
    s.map_values(|b: u8| to_lower(b))
}

/// The words `inf`, `infinity` and `nan`, in any casing.
pub open spec fn is_special_float_word(s: Seq<u8>) -> bool {
    ||| lower_seq(s) == seq![105u8, 110, 102]
    ||| lower_seq(s) == seq![105u8, 110, 102, 105, 110, 105, 116, 121]
    ||| lower_seq(s) == seq![110u8, 97, 110]
}

/// The position of the first exponent marker, `e` (101) or `E` (69), or
/// `s.len()` if there is none.
pub open spec fn first_exp_index(s: Seq<u8>) -> int
    decreases s.len(),
{
    if s.len() == 0 {
        0
    } else if s[0] == 101 || s[0] == 69 {
        0
    } else {
        1 + first_exp_index(s.drop_first())
    }
}

/// A position before which no exponent marker occurs, and which holds one
/// unless it is the end, is `first_exp_index`.
pub proof fn lemma_first_exp_index_is(s: Seq<u8>, j: int)
    requires
        0 <= j <= s.len(),
        forall|k: int| 0 <= k < j ==> s[k] != 101 && s[k] != 69,
        j < s.len() ==> (s[j] == 101 || s[j] == 69),
    ensures
        first_exp_index(s) == j,
    decreases s.len(),
{
    if s.len() > 0 && s[0] != 101 && s[0] != 69 {
        assert(j > 0);
        assert forall|k: int| 0 <= k < j - 1 implies s.drop_first()[k] != 101
            && s.drop_first()[k] != 69 by {
            assert(s.drop_first()[k] == s[k + 1]);
        }
        if j - 1 < s.drop_first().len() {
            assert(s.drop_first()[j - 1] == s[j]);
        }
        lemma_first_exp_index_is(s.drop_first(), j - 1);
    }
}

/// A mantissa: digits, or digits with one dot and at least one digit on
/// either side of it.
pub open spec fn valid_mantissa(s: Seq<u8>) -> bool {
    let d = first_index_of(s, 46);
    if d == s.len() {
        valid_uint(s)
    } else {
        all_digits(s.take(d)) && all_digits(s.skip(d + 1)) && s.len() > 1
    }
}

/// An exponent: an optional sign followed by one or more digits.
pub open spec fn valid_exp(s: Seq<u8>) -> bool {
    if s.len() > 0 && (s[0] == 43 || s[0] == 45) {
        valid_uint(s.drop_first())
    } else {
        valid_uint(s)
    }
}

/// An unsigned float body: a mantissa, optionally followed by an exponent
/// marker and an exponent.
pub open spec fn valid_float_body(s: Seq<u8>) -> bool {
    let e = first_exp_index(s);
    if e == s.len() {
        valid_mantissa(s)
    } else {
        valid_mantissa(s.take(e)) && valid_exp(s.skip(e + 1))
    }
}

/// The float grammar `f64` parsing accepts: an optional sign, then either
/// one of the special words or a mantissa with an optional exponent.
pub open spec fn valid_float_text(s: Seq<u8>) -> bool {
    let body = if s.len() > 0 && (s[0] == 43 || s[0] == 45) {
        s.drop_first()
    } else {
        s
    };
    is_special_float_word(body) || valid_float_body(body)
}

/// Whether `s`, lower-cased byte by byte, is exactly `w`.
fn lower_matches(s: &[u8], w: &[u8]) -> (r: bool)
    ensures
        r == (lower_seq(s@) == w@),
{
    let n = s.len();
    if n != w.len() {
        proof {
            assert(lower_seq(s@).len() == s@.len());
        }
        return false;
    }
    let mut i: usize = 0;
    while i < n
        invariant
            0 <= i <= n,
            n == s@.len() == w@.len(),
            forall|k: int| 0 <= k < i ==> lower_seq(s@)[k] == w@[k],
        decreases n - i,
    {
        let b = s[i];
        let low: u8 = if 65 <= b && b <= 90 {
            b + 32
        } else {
            b
        };
        if low != w[i] {
            proof {
                assert(lower_seq(s@)[i as int] == to_lower(s@[i as int]));
            }
            return false;
        }
        proof {
            assert(lower_seq(s@)[i as int] == to_lower(s@[i as int]));
        }
        i += 1;
    }
    proof {
        assert(lower_seq(s@) =~= w@);
    }
    true
}

/// Whether `s[from..to]` is all digits.
fn check_all_digits(s: &[u8], from: usize, to: usize) -> (r: bool)
    requires
        from <= to <= s@.len(),
    ensures
        r == all_digits(s@.subrange(from as int, to as int)),
{
    let ghost part = s@.subrange(from as int, to as int);
    let mut i = from;
    while i < to
        invariant
            from <= i <= to <= s@.len(),
            part == s@.subrange(from as int, to as int),
            forall|k: int| 0 <= k < i - from ==> is_digit(part[k]),
        decreases to - i,
    {
        let b = s[i];
        if b < 48 || b > 57 {
            proof {
                assert(part[i - from] == s@[i as int]);
            }
            return false;
        }
        proof {
            assert(part[i - from] == s@[i as int]);
        }
        i += 1;
    }
    true
}

/// Whether `s` is a text that `f64` parsing accepts, exactly as
/// [`valid_float_text`] says.
pub fn check_float_text(s: &[u8]) -> (r: bool)
    ensures
        r == valid_float_text(s@),
{
    let n = s.len();
    let start: usize = if n > 0 && (s[0] == 43 || s[0] == 45) {
        1
    } else {
        0
    };
    let ghost body = s@.skip(start as int);
    proof {
        if start == 1 {
            assert(body =~= s@.drop_first());
        } else {
            assert(body =~= s@);
        }
    }
    let rest = vstd::slice::slice_subrange(s, start, n);
    proof {
        assert(rest@ =~= body);
    }
    let word_inf: [u8; 3] = [105, 110, 102];
    let word_infinity: [u8; 8] = [105, 110, 102, 105, 110, 105, 116, 121];
    let word_nan: [u8; 3] = [110, 97, 110];
    if lower_matches(rest, word_inf.as_slice()) || lower_matches(rest, word_infinity.as_slice())
        || lower_matches(rest, word_nan.as_slice()) {
        proof {
            assert(is_special_float_word(body));
        }
        return true;
    }
    let m = rest.len();
    let mut e: usize = 0;
    while e < m && rest[e] != 101 && rest[e] != 69
        invariant
            0 <= e <= m,
            m == rest@.len(),
            forall|k: int| 0 <= k < e ==> rest@[k] != 101 && rest@[k] != 69,
        decreases m - e,
    {
        e += 1;
    }
    proof {
        lemma_first_exp_index_is(rest@, e as int);
    }
    let mantissa_ok = check_mantissa(rest, e);
    if !mantissa_ok {
        proof {
            if e == m {
                assert(!valid_mantissa(rest@)) by {
                    assert(rest@.subrange(0, e as int) =~= rest@);
                }
            }
        }
        return false;
    }
    if e == m {
        proof {
            assert(rest@.subrange(0, e as int) =~= rest@);
        }
        return true;
    }
    let exp_ok = check_exp(rest, e + 1);
    proof {
        assert(rest@.subrange(0, e as int) == rest@.take(e as int));
    }
    exp_ok
}

/// Whether `s[0..e]` is a valid mantissa.
fn check_mantissa(s: &[u8], e: usize) -> (r: bool)
    requires
        e <= s@.len(),
    ensures
        r == valid_mantissa(s@.take(e as int)),
{
    let ghost m = s@.take(e as int);
    let mut d: usize = 0;
    while d < e && s[d] != 46
        invariant
            0 <= d <= e <= s@.len(),
            m == s@.take(e as int),
            forall|k: int| 0 <= k < d ==> m[k] != 46,
        decreases e - d,
    {
        proof {
            assert(m[d as int] == s@[d as int]);
        }
        d += 1;
    }
    proof {
        if d < e {
            assert(m[d as int] == s@[d as int]);
        }
        lemma_first_index_of_is(m, 46, d as int);
    }
    if d == e {
        if e == 0 {
            return false;
        }
        let r = check_all_digits(s, 0, e);
        proof {
            assert(s@.subrange(0, e as int) == m);
        }
        r
    } else {
        if e <= 1 {
            proof {
                assert(m.len() <= 1);
            }
            return false;
        }
        let ip_ok = check_all_digits(s, 0, d);
        if !ip_ok {
            proof {
                assert(m.take(d as int) =~= s@.subrange(0, d as int));
            }
            return false;
        }
        let fp_ok = check_all_digits(s, d + 1, e);
        proof {
            assert(m.take(d as int) =~= s@.subrange(0, d as int));
            assert(m.skip(d + 1) =~= s@.subrange(d + 1, e as int));
        }
        fp_ok
    }
}

/// Whether `s[from..]` is a valid exponent.
fn check_exp(s: &[u8], from: usize) -> (r: bool)
    requires
        from <= s@.len(),
    ensures
        r == valid_exp(s@.skip(from as int)),
{
    let ghost xp = s@.skip(from as int);
    let n = s.len();
    if from == n {
        return false;
    }
    proof {
        assert(xp[0] == s@[from as int]);
    }
    let b = s[from];
    let dstart: usize = if b == 43 || b == 45 {
        from + 1
    } else {
        from
    };
    if dstart == n {
        return false;
    }
    let r = check_all_digits(s, dstart, n);
    proof {
        if dstart == from + 1 {
            assert(xp.drop_first() =~= s@.subrange(dstart as int, n as int));
        } else {
            assert(xp =~= s@.subrange(dstart as int, n as int));
        }
    }
    r
}

/// Accepts exactly the texts that parse as an `i32`: the integer grammar,
/// in `i32` range. The gateway and the command-line front end use this to
/// validate an account-identifier argument.
pub fn is_int_arg(v: &str) -> (r: Result<(), String>)
    ensures
        r is Ok <==> (spec_parse_int(v.spec_bytes()) matches Some(x) && i32::MIN <= x
            <= i32::MAX),
{
    match parse_i32(v.as_bytes()) {
        Some(_) => Ok(()),
        None => Err("invalid digit found in string".to_owned()),
    }
}

/// Accepts exactly the texts of the float grammar: what an `f64` argument
/// may look like. The command-line front end uses this to validate a
/// balance or amount argument.
pub fn is_float_arg(v: &str) -> (r: Result<(), String>)
    ensures
        r is Ok <==> valid_float_text(v.spec_bytes()),
{
    if check_float_text(v.as_bytes()) {
        Ok(())
    } else {
        Err("invalid float literal".to_owned())
    }
}

} // verus!
