//! Derivation of a stable per-client wariness value.
//!
//! A client's wariness is either forced by an explicit decimal override,
//! clamped to [0, 1], or derived deterministically from the client identifier
//! by a non-cryptographic hash scaled to a fraction of the hash's output
//! range. The hash is not a security control; any deterministic,
//! well-distributed hash satisfies the design, and only same-implementation
//! determinism is promised.

use vstd::prelude::*;

use crate::GraphQuery;
use crate::WARINESS_SCALE;
use crate::opt_str_view;
use crate::valid_wariness;

verus! {

/// Offset basis of the 64-bit FNV-1a hash.
pub const FNV_OFFSET: u64 = 0xcbf29ce484222325;

/// Prime multiplier of the 64-bit FNV-1a hash.
pub const FNV_PRIME: u64 = 0x100000001b3;

/// One FNV-1a round: fold one unit into the running hash, with the product
/// reduced modulo two to the 64th as wrapping 64-bit arithmetic would.
pub open spec fn fnv1a_step(h: u64, x: u64) -> u64 {
    ((((h ^ x) as int) * (FNV_PRIME as int)) % 0x10000000000000000) as u64
}

/// The 64-bit FNV-1a hash of a character sequence, one round per character.
pub open spec fn fnv1a(s: Seq<char>) -> u64
    decreases s.len(),
{
    if s.len() == 0 {
        FNV_OFFSET
    } else {
        fnv1a_step(fnv1a(s.drop_last()), s.last() as u64)
    }
}

/// Hashes an identifier with 64-bit FNV-1a, one round per character.
pub fn hash_identifier(s: &str) -> (h: u64)
    ensures
        h == fnv1a(s@),
{
    let n: usize = s.unicode_len();
    let mut h: u64 = FNV_OFFSET;
    let mut i: usize = 0;
    while i < n
        invariant
            i <= n,
            n == s@.len(),
            h == fnv1a(s@.take(i as int)),
        decreases n - i,
    {
        let c: char = s.get_char(i);
        let x: u64 = c as u64;
        let folded: u128 = ((h ^ x) as u128) * (FNV_PRIME as u128);
        let next: u64 = (folded % (0x10000000000000000u128)) as u64;
        proof {
            assert(s@.take(i + 1).drop_last() =~= s@.take(i as int));
            assert(s@.take(i + 1).last() == s@[i as int]);
            assert(next == fnv1a_step(h, x));
        }
        h = next;
        i = i + 1;
    }
    proof {
        assert(s@.take(n as int) =~= s@);
    }
    h
}

/// Character code of '+'.
pub const CH_PLUS: u32 = 43;

/// Character code of '-'.
pub const CH_MINUS: u32 = 45;

/// Character code of '.'.
pub const CH_DOT: u32 = 46;

/// Character code of '0'.
pub const CH_ZERO: u32 = 48;

/// Character code of '9'.
pub const CH_NINE: u32 = 57;

/// Whether a character is an ASCII decimal digit.
pub open spec fn is_ascii_digit(c: char) -> bool {
    CH_ZERO <= c as u32 && c as u32 <= CH_NINE
}

/// The numeric value of an ASCII decimal digit.
pub open spec fn digit_value(c: char) -> int {
    c as u32 - CH_ZERO
}

/// Whether every character of a sequence is an ASCII decimal digit.
pub open spec fn all_digits(t: Seq<char>) -> bool {
    forall|o: int| 0 <= o < t.len() ==> is_ascii_digit(#[trigger] t[o])
}

/// The index of the first '.' in a sequence, or its length if there is none.
pub open spec fn dot_index(t: Seq<char>) -> int
    decreases t.len(),
{
    if t.len() == 0 {
        0
    } else if t[0] as u32 == CH_DOT {
        0
    } else {
        1 + dot_index(t.skip(1))
    }
}

/// `dot_index` points at the first '.': it lies within the sequence, it hits
/// a '.' whenever one exists, and nothing before it is a '.'.
pub proof fn lemma_dot_index_bounds(t: Seq<char>)
    ensures
        0 <= dot_index(t) <= t.len(),
        dot_index(t) < t.len() ==> t[dot_index(t)] as u32 == CH_DOT,
        forall|o: int| 0 <= o < dot_index(t) ==> (#[trigger] t[o]) as u32 != CH_DOT,
    decreases t.len(),
{
    if t.len() == 0 {
    } else if t[0] as u32 == CH_DOT {
    } else {
        lemma_dot_index_bounds(t.skip(1));
        assert forall|o: int| 0 <= o < dot_index(t) implies (#[trigger] t[o]) as u32 != CH_DOT by {
            if o > 0 {
                assert(t.skip(1)[o - 1] == t[o]);
            }
        }
        if dot_index(t) < t.len() {
            assert(t.skip(1)[dot_index(t) - 1] == t[dot_index(t)]);
        }
    }
}

/// Character code of 'E'.
pub const CH_UPPER_E: u32 = 69;

/// Character code of 'e'.
pub const CH_LOWER_E: u32 = 101;

/// Whether a character marks the exponent part of a decimal number.
pub open spec fn is_exp_marker(c: char) -> bool {
    c as u32 == CH_LOWER_E || c as u32 == CH_UPPER_E
}

/// The index of the first exponent marker in a sequence, or its length if
/// there is none.
pub open spec fn exp_index(t: Seq<char>) -> int
    decreases t.len(),
{
    if t.len() == 0 {
        0
    } else if is_exp_marker(t[0]) {
        0
    } else {
        1 + exp_index(t.skip(1))
    }
}

/// `exp_index` points at the first exponent marker: it lies within the
/// sequence, it hits a marker whenever one exists, and nothing before it is
/// one.
pub proof fn lemma_exp_index_bounds(t: Seq<char>)
    ensures
        0 <= exp_index(t) <= t.len(),
        exp_index(t) < t.len() ==> is_exp_marker(t[exp_index(t)]),
        forall|o: int| 0 <= o < exp_index(t) ==> !is_exp_marker(#[trigger] t[o]),
    decreases t.len(),
{
    if t.len() == 0 {
    } else if is_exp_marker(t[0]) {
    } else {
        lemma_exp_index_bounds(t.skip(1));
        assert forall|o: int| 0 <= o < exp_index(t) implies !is_exp_marker(#[trigger] t[o]) by {
            if o > 0 {
                assert(t.skip(1)[o - 1] == t[o]);
            }
        }
        if exp_index(t) < t.len() {
            assert(t.skip(1)[exp_index(t) - 1] == t[exp_index(t)]);
        }
    }
}

/// Ten to the `k`-th power (one for `k` at or below zero).
pub open spec fn pow10(k: int) -> int
    decreases k,
{
    if k <= 0 {
        1
    } else {
        10 * pow10(k - 1)
    }
}

/// Ten to any power is at least one.
pub proof fn lemma_pow10_pos(k: int)
    ensures
        pow10(k) >= 1,
    decreases k,
{
    if k > 0 {
        lemma_pow10_pos(k - 1);
    }
}

/// The small powers of ten, written out.
pub proof fn lemma_pow10_values()
    ensures
        pow10(0) == 1,
        pow10(1) == 10,
        pow10(2) == 100,
        pow10(3) == 1_000,
        pow10(4) == 10_000,
        pow10(5) == 100_000,
        pow10(6) == 1_000_000,
{
    assert(pow10(0) == 1);
    assert(pow10(1) == 10);
    assert(pow10(2) == 100);
    assert(pow10(3) == 1_000);
    assert(pow10(4) == 10_000);
    assert(pow10(5) == 100_000);
    assert(pow10(6) == 1_000_000);
}

/// Powers of ten do not shrink as the exponent grows.
pub proof fn lemma_pow10_mono(a: int, b: int)
    requires
        a <= b,
    ensures
        pow10(a) <= pow10(b),
    decreases b - a,
{
    if a < b {
        lemma_pow10_mono(a, b - 1);
        lemma_pow10_pos(b - 1);
    }
}

/// The mantissa of a decimal body: everything before the first exponent
/// marker.
pub open spec fn mantissa(body: Seq<char>) -> Seq<char> {
    body.take(exp_index(body))
}

/// Whether a decimal body carries an exponent part.
pub open spec fn has_exp(body: Seq<char>) -> bool {
    exp_index(body) < body.len()
}

/// The exponent text of a decimal body: everything after the first exponent
/// marker, empty when there is none.
pub open spec fn exp_text(body: Seq<char>) -> Seq<char> {
    if exp_index(body) < body.len() {
        body.skip(exp_index(body) + 1)
    } else {
        Seq::empty()
    }
}

/// Whether an exponent text begins with a minus sign.
pub open spec fn exp_neg(t: Seq<char>) -> bool {
    t.len() > 0 && t[0] as u32 == CH_MINUS
}

/// The digits of an exponent text, after its optional sign.
pub open spec fn exp_digits(t: Seq<char>) -> Seq<char> {
    if t.len() > 0 && (t[0] as u32 == CH_PLUS || t[0] as u32 == CH_MINUS) {
        t.skip(1)
    } else {
        t
    }
}

/// Whether an exponent text is valid: an optional sign, then at least one
/// digit.
pub open spec fn exp_valid(t: Seq<char>) -> bool {
    all_digits(exp_digits(t)) && exp_digits(t).len() >= 1
}

/// The value of a digit string read in base ten.
pub open spec fn digits_value(u: Seq<char>) -> int
    decreases u.len(),
{
    if u.len() == 0 {
        0
    } else {
        10 * digits_value(u.drop_last()) + digit_value(u.last())
    }
}

/// A digit string's value is not negative.
pub proof fn lemma_digits_value_nonneg(u: Seq<char>)
    requires
        all_digits(u),
    ensures
        digits_value(u) >= 0,
    decreases u.len(),
{
    if u.len() > 0 {
        assert forall|o: int| 0 <= o < u.drop_last().len() implies is_ascii_digit(
            #[trigger] u.drop_last()[o],
        ) by {
            assert(u.drop_last()[o] == u[o]);
        }
        lemma_digits_value_nonneg(u.drop_last());
        assert(is_ascii_digit(u.last()));
    }
}

/// The signed value of an exponent text.
pub open spec fn exp_value(t: Seq<char>) -> int {
    if exp_neg(t) {
        -digits_value(exp_digits(t))
    } else {
        digits_value(exp_digits(t))
    }
}

/// The digits of a mantissa before the first '.'.
pub open spec fn int_part(m: Seq<char>) -> Seq<char> {
    m.take(dot_index(m))
}

/// The digits of a mantissa after the first '.', empty when there is none.
pub open spec fn frac_part(m: Seq<char>) -> Seq<char> {
    if dot_index(m) < m.len() {
        m.skip(dot_index(m) + 1)
    } else {
        Seq::empty()
    }
}

/// All mantissa digits in order: the integer digits, then the fraction
/// digits.
pub open spec fn mant_digits(m: Seq<char>) -> Seq<char> {
    int_part(m) + frac_part(m)
}

/// The decimal-point position within a body's digit string: the count of
/// integer digits, shifted by the exponent.
pub open spec fn point_of(body: Seq<char>) -> int {
    int_part(mantissa(body)).len() + (if has_exp(body) {
        exp_value(exp_text(body))
    } else {
        0
    })
}

/// The weight, in millionths, of the digit standing at distance `r` past
/// the decimal point: the first six fraction places carry their place
/// value, every other place none.
pub open spec fn place_weight(r: int) -> int {
    if 0 <= r <= 5 {
        pow10(5 - r)
    } else {
        0
    }
}

/// The value in millionths of the digit string `d` read with its decimal
/// point at position `point`, summed from digit `k` on.
pub open spec fn mant_ppm(d: Seq<char>, point: int, k: int) -> int
    decreases d.len() - k,
{
    if k < 0 || k >= d.len() {
        0
    } else {
        digit_value(d[k]) * place_weight(k - point) + mant_ppm(d, point, k + 1)
    }
}

/// Whether a nonzero digit stands before the decimal point among the first
/// `k` digits of the string.
pub open spec fn nonzero_before_upto(d: Seq<char>, point: int, k: int) -> bool {
    exists|j: int| 0 <= j < k && j < point && j < d.len() && digit_value(#[trigger] d[j]) != 0
}

/// Whether any nonzero digit stands before the decimal point: exactly then
/// is the number's value at least one.
pub open spec fn nonzero_before(d: Seq<char>, point: int) -> bool {
    nonzero_before_upto(d, point, d.len() as int)
}

/// Extending the scanned digits by one: a nonzero digit before the point
/// appears exactly when one appeared earlier or the new digit is one.
proof fn lemma_nonzero_upto_step(d: Seq<char>, point: int, k: int)
    requires
        0 <= k < d.len(),
    ensures
        nonzero_before_upto(d, point, k + 1) == (nonzero_before_upto(d, point, k) || (k < point
            && digit_value(d[k]) != 0)),
{
    if nonzero_before_upto(d, point, k) {
        let j = choose|j: int|
            0 <= j < k && j < point && j < d.len() && digit_value(#[trigger] d[j]) != 0;
        assert(0 <= j < k + 1 && j < point && j < d.len() && digit_value(d[j]) != 0);
    } else if k < point && digit_value(d[k]) != 0 {
        assert(0 <= k < k + 1 && k < point && k < d.len() && digit_value(d[k]) != 0);
    } else {
        if nonzero_before_upto(d, point, k + 1) {
            let j = choose|j: int|
                0 <= j < k + 1 && j < point && j < d.len() && digit_value(#[trigger] d[j]) != 0;
            assert(j < k);
            assert(nonzero_before_upto(d, point, k));
        }
    }
}

/// The millionths value of an all-digit string is bounded: from digit `k`
/// on it stays below ten to the `6 - r`, where `r` is how far `k` already
/// stands past the decimal point (and zero before the point).
proof fn lemma_mant_ppm_bounds(d: Seq<char>, point: int, k: int)
    requires
        all_digits(d),
    ensures
        0 <= mant_ppm(d, point, k),
        mant_ppm(d, point, k) < pow10(
            6 - (if k - point >= 0 {
                k - point
            } else {
                0
            }),
        ),
    decreases d.len() - k,
{
    let r = k - point;
    lemma_pow10_pos(6 - (if r >= 0 { r } else { 0 }));
    if k < 0 || k >= d.len() {
    } else {
        lemma_mant_ppm_bounds(d, point, k + 1);
        assert(is_ascii_digit(d[k]));
        if 0 <= r <= 5 {
            lemma_pow10_pos(5 - r);
            assert(pow10(6 - r) == 10 * pow10(5 - r));
            assert(digit_value(d[k]) * place_weight(r) + mant_ppm(d, point, k + 1) < pow10(6 - r))
                by (nonlinear_arith)
                requires
                    place_weight(r) == pow10(5 - r),
                    0 <= digit_value(d[k]) <= 9,
                    0 <= mant_ppm(d, point, k + 1) < pow10(5 - r),
                    pow10(5 - r) >= 1,
                    pow10(6 - r) == 10 * pow10(5 - r),
            ;
            assert(digit_value(d[k]) * place_weight(r) >= 0) by (nonlinear_arith)
                requires
                    digit_value(d[k]) >= 0,
                    place_weight(r) >= 1,
            ;
        } else {
            assert(place_weight(r) == 0);
            assert(digit_value(d[k]) * place_weight(r) == 0) by (nonlinear_arith)
                requires
                    place_weight(r) == 0,
            ;
            assert(mant_ppm(d, point, k) == mant_ppm(d, point, k + 1));
        }
    }
}

/// With the decimal point at or past the end of the digit string, every
/// digit stands before the point and the fraction value is zero.
proof fn lemma_mant_ppm_zero_high(d: Seq<char>, point: int, k: int)
    requires
        point >= d.len(),
    ensures
        mant_ppm(d, point, k) == 0,
    decreases d.len() - k,
{
    if 0 <= k < d.len() {
        assert(place_weight(k - point) == 0);
        assert(digit_value(d[k]) * place_weight(k - point) == 0) by (nonlinear_arith)
            requires
                place_weight(k - point) == 0,
        ;
        lemma_mant_ppm_zero_high(d, point, k + 1);
    }
}

/// With the decimal point six or more places below zero, every digit stands
/// past the sixth fraction place and the value is zero.
proof fn lemma_mant_ppm_zero_low(d: Seq<char>, point: int, k: int)
    requires
        point <= -6,
        k >= 0,
    ensures
        mant_ppm(d, point, k) == 0,
    decreases d.len() - k,
{
    if k < d.len() {
        assert(place_weight(k - point) == 0);
        assert(digit_value(d[k]) * place_weight(k - point) == 0) by (nonlinear_arith)
            requires
                place_weight(k - point) == 0,
        ;
        lemma_mant_ppm_zero_low(d, point, k + 1);
    }
}

/// With the decimal point at or past the end of the digit string, where
/// exactly it stands makes no difference: a nonzero digit before it is just
/// any nonzero digit.
proof fn lemma_nonzero_before_high(d: Seq<char>, p1: int, p2: int)
    requires
        p1 >= d.len(),
        p2 >= d.len(),
    ensures
        nonzero_before(d, p1) == nonzero_before(d, p2),
{
    if nonzero_before(d, p1) {
        let j = choose|j: int|
            0 <= j < d.len() && j < p1 && j < d.len() && digit_value(#[trigger] d[j]) != 0;
        assert(0 <= j < d.len() && j < p2 && j < d.len() && digit_value(d[j]) != 0);
    }
    if nonzero_before(d, p2) {
        let j = choose|j: int|
            0 <= j < d.len() && j < p2 && j < d.len() && digit_value(#[trigger] d[j]) != 0;
        assert(0 <= j < d.len() && j < p1 && j < d.len() && digit_value(d[j]) != 0);
    }
}

/// Whether an unsigned body is a decimal number: digits around at most one
/// '.', with at least one digit, optionally followed by an exponent marker
/// and a signed digit exponent.
pub open spec fn valid_decimal(body: Seq<char>) -> bool {
    let m = mantissa(body);
    all_digits(int_part(m)) && all_digits(frac_part(m)) && int_part(m).len() + frac_part(m).len()
        > 0 && (has_exp(body) ==> exp_valid(exp_text(body)))
}

/// The wariness a valid decimal body stands for, clamped to [0, 1]: a
/// negative value clamps to zero; a nonzero digit before the exponent-
/// shifted decimal point means a value of at least one, clamped to one; and
/// otherwise the first six fraction places give the value in millionths.
pub open spec fn decimal_ppm(neg: bool, body: Seq<char>) -> u64 {
    let d = mant_digits(mantissa(body));
    let point = point_of(body);
    if neg {
        0u64
    } else if nonzero_before(d, point) {
        WARINESS_SCALE
    } else {
        mant_ppm(d, point, 0) as u64
    }
}

/// Parses an explicit wariness override: an optional sign, then a decimal
/// number with an optional exponent, clamped to [0.0, 1.0] in millionths.
/// Anything else — an empty string, stray characters, non-finite forms — is
/// refused.
pub open spec fn parse_override(s: Seq<char>) -> Option<u64> {
    let signed = s.len() > 0 && (s[0] as u32 == CH_PLUS || s[0] as u32 == CH_MINUS);
    let neg = s.len() > 0 && s[0] as u32 == CH_MINUS;
    let body = if signed {
        s.skip(1)
    } else {
        s
    };
    if valid_decimal(body) {
        Some(decimal_ppm(neg, body))
    } else {
        None
    }
}

/// A parsed override always lies in [0, 1_000_000] ppm.
pub proof fn lemma_parse_override_range(s: Seq<char>)
    ensures
        parse_override(s) matches Some(w) ==> valid_wariness(w),
{
    let signed = s.len() > 0 && (s[0] as u32 == CH_PLUS || s[0] as u32 == CH_MINUS);
    let body = if signed {
        s.skip(1)
    } else {
        s
    };
    if valid_decimal(body) {
        let m = mantissa(body);
        let d = mant_digits(m);
        let point = point_of(body);
        assert forall|o: int| 0 <= o < d.len() implies is_ascii_digit(#[trigger] d[o]) by {
            if o < int_part(m).len() {
                assert(d[o] == int_part(m)[o]);
            } else {
                assert(d[o] == frac_part(m)[o - int_part(m).len()]);
            }
        }
        lemma_mant_ppm_bounds(d, point, 0);
        lemma_pow10_values();
        if point < 0 {
            lemma_pow10_mono(6 + point, 6);
        }
    }
}

/// The first seven powers of ten, as runtime values.
fn pow10_u64(e: u64) -> (r: u64)
    requires
        e <= 6,
    ensures
        r as int == pow10(e as int),
{
    proof {
        lemma_pow10_values();
    }
    if e == 0 {
        1
    } else if e == 1 {
        10
    } else if e == 2 {
        100
    } else if e == 3 {
        1_000
    } else if e == 4 {
        10_000
    } else if e == 5 {
        100_000
    } else {
        1_000_000
    }
}

/// Parses an explicit override string into a clamped wariness, exactly as
/// `parse_override` describes: `None` on anything but a decimal number.
#[verifier::rlimit(100)]
pub fn parse_override_str(s: &str) -> (r: Option<u64>)
    ensures
        r == parse_override(s@),
        r matches Some(w) ==> valid_wariness(w),
{
    proof {
        lemma_parse_override_range(s@);
    }
    let n: usize = s.unicode_len();
    let mut start: usize = 0;
    let mut neg: bool = false;
    if n > 0 {
        let c0: char = s.get_char(0);
        let u0: u32 = c0 as u32;
        if u0 == CH_PLUS || u0 == CH_MINUS {
            neg = u0 == CH_MINUS;
            start = 1;
        }
    }
    let ghost body: Seq<char> = s@.skip(start as int);
    proof {
        lemma_exp_index_bounds(body);
        assert forall|o: int| 0 <= o < body.len() implies body[o] == s@[o + start] by {}
    }
    // Find the first exponent marker at or after `start`.
    let mut k: usize = start;
    let mut epos: usize = n;
    let mut efound: bool = false;
    while k < n
        invariant
            start <= k <= n,
            n == s@.len(),
            !efound ==> epos == n && (forall|o: int|
                start <= o < k ==> !is_exp_marker(#[trigger] s@[o])),
            efound ==> start <= epos < k && is_exp_marker(s@[epos as int]) && (forall|o: int|
                start <= o < epos ==> !is_exp_marker(#[trigger] s@[o])),
        decreases n - k,
    {
        if !efound {
            let c: char = s.get_char(k);
            let u: u32 = c as u32;
            if u == CH_LOWER_E || u == CH_UPPER_E {
                epos = k;
                efound = true;
            }
        }
        k = k + 1;
    }
    proof {
        if efound {
            if exp_index(body) < epos - start {
                assert(is_exp_marker(body[exp_index(body)]));
                assert(false);
            }
            if exp_index(body) > epos - start {
                assert(!is_exp_marker(body[epos as int - start]));
                assert(false);
            }
        } else {
            if exp_index(body) < body.len() {
                assert(is_exp_marker(body[exp_index(body)]));
                assert(false);
            }
        }
        assert(exp_index(body) == epos as int - start);
        assert(efound == has_exp(body));
    }
    let ghost mant: Seq<char> = mantissa(body);
    proof {
        lemma_dot_index_bounds(mant);
        assert(mant.len() == epos as int - start);
        assert forall|o: int| 0 <= o < mant.len() implies mant[o] == s@[o + start] by {
            assert(mant[o] == body[o]);
        }
    }
    // Find the first '.' within the mantissa.
    let mut k2: usize = start;
    let mut dot: usize = epos;
    let mut dfound: bool = false;
    while k2 < epos
        invariant
            start <= k2 <= epos <= n,
            n == s@.len(),
            !dfound ==> dot == epos && (forall|o: int|
                start <= o < k2 ==> (#[trigger] s@[o]) as u32 != CH_DOT),
            dfound ==> start <= dot < k2 && s@[dot as int] as u32 == CH_DOT && (forall|o: int|
                start <= o < dot ==> (#[trigger] s@[o]) as u32 != CH_DOT),
        decreases epos - k2,
    {
        if !dfound {
            let c: char = s.get_char(k2);
            if c as u32 == CH_DOT {
                dot = k2;
                dfound = true;
            }
        }
        k2 = k2 + 1;
    }
    proof {
        if dfound {
            if dot_index(mant) < dot - start {
                assert(mant[dot_index(mant)] as u32 == CH_DOT);
                assert(false);
            }
            if dot_index(mant) > dot - start {
                assert(mant[dot as int - start] as u32 != CH_DOT);
                assert(false);
            }
        } else {
            if dot_index(mant) < mant.len() {
                assert(mant[dot_index(mant)] as u32 == CH_DOT);
                assert(false);
            }
        }
        assert(dot_index(mant) == dot as int - start);
    }
    // Scan the integer digits of the mantissa.
    let mut i: usize = start;
    while i < dot
        invariant
            start <= i <= dot <= epos <= n,
            n == s@.len(),
            body == s@.skip(start as int),
            start as int == (if s@.len() > 0 && (s@[0] as u32 == CH_PLUS || s@[0] as u32
                == CH_MINUS) {
                1int
            } else {
                0int
            }),
            mant == mantissa(body),
            mant.len() == epos as int - start,
            dot_index(mant) == dot as int - start,
            forall|o: int| 0 <= o < mant.len() ==> #[trigger] mant[o] == s@[o + start],
            forall|o: int| 0 <= o < i - start ==> is_ascii_digit(#[trigger] mant[o]),
        decreases dot - i,
    {
        let c: char = s.get_char(i);
        let u: u32 = c as u32;
        proof {
            assert(mant[i as int - start] == s@[i as int]);
        }
        if !(CH_ZERO <= u && u <= CH_NINE) {
            proof {
                assert(int_part(mant)[i as int - start] == mant[i as int - start]);
                assert(!all_digits(int_part(mant)));
                if start == 0 {
                    assert(body =~= s@);
                }
            }
            return None;
        }
        i = i + 1;
    }
    // Scan the fraction digits of the mantissa.
    if dfound {
        let mut j: usize = dot + 1;
        while j < epos
            invariant
                dot + 1 <= j <= epos <= n,
                start <= dot < epos,
                n == s@.len(),
                body == s@.skip(start as int),
                start as int == (if s@.len() > 0 && (s@[0] as u32 == CH_PLUS || s@[0] as u32
                    == CH_MINUS) {
                    1int
                } else {
                    0int
                }),
                mant == mantissa(body),
                mant.len() == epos as int - start,
                dot_index(mant) == dot as int - start,
                forall|o: int| 0 <= o < mant.len() ==> #[trigger] mant[o] == s@[o + start],
                forall|o: int|
                    0 <= o < j - dot - 1 ==> is_ascii_digit(#[trigger] frac_part(mant)[o]),
            decreases epos - j,
        {
            let c: char = s.get_char(j);
            let u: u32 = c as u32;
            proof {
                assert(frac_part(mant)[j as int - dot - 1] == mant[j as int - start]);
                assert(mant[j as int - start] == s@[j as int]);
            }
            if !(CH_ZERO <= u && u <= CH_NINE) {
                proof {
                    assert(!all_digits(frac_part(mant)));
                    if start == 0 {
                        assert(body =~= s@);
                    }
                }
                return None;
            }
            j = j + 1;
        }
    }
    // At least one mantissa digit must be present.
    let int_len: usize = dot - start;
    let frac_len: usize = if dfound {
        epos - dot - 1
    } else {
        0
    };
    if int_len == 0 && frac_len == 0 {
        proof {
            assert(int_part(mant).len() == 0);
            assert(frac_part(mant).len() == 0);
            assert(!valid_decimal(body));
            if start == 0 {
                assert(body =~= s@);
            }
        }
        return None;
    }
    // Parse the exponent, saturating far beyond the digit count.
    let cap: i128 = (n as i128) + 7;
    let ghost etext: Seq<char> = exp_text(body);
    let mut eneg: bool = false;
    let mut eacc: i128 = 0;
    let mut em: usize = n;
    if efound {
        proof {
            assert(etext =~= s@.skip(epos as int + 1));
        }
        em = epos + 1;
        if em < n {
            let c: char = s.get_char(em);
            let u: u32 = c as u32;
            if u == CH_PLUS || u == CH_MINUS {
                eneg = u == CH_MINUS;
                em = em + 1;
            }
        }
    }
    let ghost edig: Seq<char> = exp_digits(etext);
    if efound {
        proof {
            assert(etext.len() == n - epos - 1);
            assert(edig =~= s@.skip(em as int));
            assert(exp_neg(etext) == eneg);
        }
        if em == n {
            proof {
                assert(edig.len() == 0);
                assert(!exp_valid(exp_text(body)));
                assert(!valid_decimal(body));
                if start == 0 {
                    assert(body =~= s@);
                }
            }
            return None;
        }
        let mut m: usize = em;
        while m < n
            invariant
                em <= m <= n,
                n == s@.len(),
                body == s@.skip(start as int),
                start as int == (if s@.len() > 0 && (s@[0] as u32 == CH_PLUS || s@[0] as u32
                    == CH_MINUS) {
                    1int
                } else {
                    0int
                }),
                etext == exp_text(body),
                edig == exp_digits(etext),
                edig.len() == n - em,
                forall|o: int| 0 <= o < edig.len() ==> #[trigger] edig[o] == s@[o + em],
                forall|o: int| 0 <= o < m - em ==> is_ascii_digit(#[trigger] edig[o]),
                cap == n as i128 + 7,
                0 <= eacc <= cap,
                digits_value(edig.take(m as int - em)) <= cap as int ==> eacc as int
                    == digits_value(edig.take(m as int - em)),
                digits_value(edig.take(m as int - em)) > cap as int ==> eacc == cap,
            decreases n - m,
        {
            let c: char = s.get_char(m);
            let u: u32 = c as u32;
            proof {
                assert(edig[m as int - em] == s@[m as int]);
            }
            if !(CH_ZERO <= u && u <= CH_NINE) {
                proof {
                    assert(!all_digits(edig));
                    assert(!exp_valid(exp_text(body)));
                    assert(!valid_decimal(body));
                    if start == 0 {
                        assert(body =~= s@);
                    }
                }
                return None;
            }
            proof {
                assert(edig.take(m as int - em + 1).drop_last() =~= edig.take(m as int - em));
                assert(edig.take(m as int - em + 1).last() == edig[m as int - em]);
                assert(digits_value(edig.take(m as int - em + 1)) == 10 * digits_value(
                    edig.take(m as int - em),
                ) + digit_value(edig[m as int - em]));
                assert forall|o: int| 0 <= o < edig.take(m as int - em).len() implies is_ascii_digit(
                    #[trigger] edig.take(m as int - em)[o],
                ) by {
                    assert(edig.take(m as int - em)[o] == edig[o]);
                }
                lemma_digits_value_nonneg(edig.take(m as int - em));
            }
            let dnum: i128 = (u - CH_ZERO) as i128;
            let na: i128 = eacc * 10 + dnum;
            eacc = if na > cap {
                cap
            } else {
                na
            };
            m = m + 1;
        }
        proof {
            assert(edig.take(edig.len() as int) =~= edig);
        }
    }
    let exp_c: i128 = if eneg {
        -eacc
    } else {
        eacc
    };
    let point_c: i128 = (int_len as i128) + exp_c;
    let ghost pc: int = point_c as int;
    let ghost p_true: int = point_of(body);
    let ghost d: Seq<char> = mant_digits(mant);
    proof {
        assert(int_part(mant).len() == int_len);
        assert(frac_part(mant).len() == frac_len);
        assert(d.len() == int_len + frac_len);
        assert forall|o: int| 0 <= o < d.len() implies #[trigger] d[o] == (if o < int_len {
            s@[start + o]
        } else {
            s@[dot + 1 + (o - int_len)]
        }) by {
            if o < int_len {
                assert(d[o] == int_part(mant)[o]);
                assert(int_part(mant)[o] == mant[o]);
            } else {
                assert(d[o] == frac_part(mant)[o - int_len]);
                assert(frac_part(mant)[o - int_len] == mant[dot as int - start + 1 + (o
                    - int_len)]);
            }
        }
        assert forall|o: int| 0 <= o < d.len() implies is_ascii_digit(#[trigger] d[o]) by {
            if o < int_len {
                assert(d[o] == int_part(mant)[o]);
                assert(int_part(mant)[o] == mant[o]);
            } else {
                assert(d[o] == frac_part(mant)[o - int_len]);
            }
        }
        assert(all_digits(d));
        assert(all_digits(int_part(mant))) by {
            assert forall|o: int| 0 <= o < int_part(mant).len() implies is_ascii_digit(
                #[trigger] int_part(mant)[o],
            ) by {
                assert(int_part(mant)[o] == mant[o]);
            }
        }
        assert(all_digits(frac_part(mant)));
        assert(valid_decimal(body));
    }
    // Walk the digits: a nonzero digit before the point clamps to one, and
    // the six places after the point accumulate the value in millionths.
    let d_len: usize = int_len + frac_len;
    let mut saw: bool = false;
    let mut acc: u64 = 0;
    let mut kk: usize = 0;
    proof {
        assert(!nonzero_before_upto(d, pc, 0));
    }
    while kk < d_len
        invariant
            kk <= d_len,
            n == s@.len(),
            d.len() == d_len,
            all_digits(d),
            start + int_len == dot,
            dot <= epos <= n,
            dfound ==> frac_len == epos - dot - 1 && dot < epos,
            !dfound ==> frac_len == 0,
            forall|o: int| 0 <= o < d.len() ==> #[trigger] d[o] == (if o < int_len {
                s@[start + o]
            } else {
                s@[dot + 1 + (o - int_len)]
            }),
            d_len == int_len + frac_len,
            -(n as i128) - 7 <= point_c <= 2 * (n as i128) + 7,
            pc == point_c as int,
            saw == nonzero_before_upto(d, pc, kk as int),
            acc as int + mant_ppm(d, pc, kk as int) == mant_ppm(d, pc, 0),
            acc <= 999_999,
        decreases d_len - kk,
    {
        let c: char = if kk < int_len {
            s.get_char(start + kk)
        } else {
            s.get_char(dot + 1 + (kk - int_len))
        };
        let u: u32 = c as u32;
        proof {
            assert(d[kk as int] == c);
            assert(is_ascii_digit(d[kk as int]));
            lemma_nonzero_upto_step(d, pc, kk as int);
            lemma_mant_ppm_bounds(d, pc, 0);
            lemma_mant_ppm_bounds(d, pc, kk as int + 1);
            assert(mant_ppm(d, pc, kk as int) == digit_value(d[kk as int]) * place_weight(
                kk as int - pc,
            ) + mant_ppm(d, pc, kk as int + 1));
        }
        if (kk as i128) < point_c {
            if u != CH_ZERO {
                saw = true;
            }
            proof {
                assert(place_weight(kk as int - pc) == 0);
                assert(digit_value(d[kk as int]) * place_weight(kk as int - pc) == 0)
                    by (nonlinear_arith)
                    requires
                        place_weight(kk as int - pc) == 0,
                ;
            }
        } else {
            let r128: i128 = (kk as i128) - point_c;
            if r128 <= 5 {
                let e: u64 = (5 - r128) as u64;
                let w: u64 = pow10_u64(e);
                let dig: u64 = (u - CH_ZERO) as u64;
                proof {
                    lemma_pow10_values();
                    lemma_pow10_mono(e as int, 5);
                    assert(place_weight(kk as int - pc) == pow10(5 - (kk as int - pc)));
                    assert(w as int == place_weight(kk as int - pc));
                    assert(dig as int == digit_value(d[kk as int]));
                    assert(w <= 100_000);
                    assert(dig <= 9);
                    let rr0: int = if 0 - pc >= 0 {
                        0 - pc
                    } else {
                        0
                    };
                    lemma_pow10_mono(6 - rr0, 6);
                    assert(mant_ppm(d, pc, 0) <= 999_999);
                    assert(mant_ppm(d, pc, kk as int + 1) >= 0);
                }
                acc = acc + dig * w;
            } else {
                proof {
                    assert(place_weight(kk as int - pc) == 0);
                    assert(digit_value(d[kk as int]) * place_weight(kk as int - pc) == 0)
                        by (nonlinear_arith)
                        requires
                            place_weight(kk as int - pc) == 0,
                    ;
                }
            }
        }
        kk = kk + 1;
    }
    proof {
        assert(mant_ppm(d, pc, d_len as int) == 0);
        assert(acc as int == mant_ppm(d, pc, 0));
        assert(saw == nonzero_before(d, pc));
        // The saturated exponent reads the same as the true one.
        if efound {
            let dv: int = digits_value(edig);
            lemma_digits_value_nonneg(edig);
            assert(exp_value(etext) == (if eneg {
                -dv
            } else {
                dv
            }));
            assert(p_true == int_len + exp_value(etext));
            if dv <= cap as int {
                assert(eacc as int == dv);
                assert(pc == p_true);
            } else {
                assert(eacc == cap);
                if !eneg {
                    assert(pc >= d.len());
                    assert(p_true >= d.len());
                    lemma_nonzero_before_high(d, pc, p_true);
                    lemma_mant_ppm_zero_high(d, pc, 0);
                    lemma_mant_ppm_zero_high(d, p_true, 0);
                } else {
                    assert(pc <= -6);
                    assert(p_true <= -6);
                    lemma_mant_ppm_zero_low(d, pc, 0);
                    lemma_mant_ppm_zero_low(d, p_true, 0);
                    if nonzero_before(d, pc) {
                        let j = choose|j: int|
                            0 <= j < d.len() && j < pc && j < d.len() && digit_value(
                                #[trigger] d[j],
                            ) != 0;
                        assert(false);
                    }
                    if nonzero_before(d, p_true) {
                        let j = choose|j: int|
                            0 <= j < d.len() && j < p_true && j < d.len() && digit_value(
                                #[trigger] d[j],
                            ) != 0;
                        assert(false);
                    }
                }
            }
        } else {
            assert(pc == int_len as int);
            assert(p_true == int_len as int);
        }
        assert(nonzero_before(d, pc) == nonzero_before(d, p_true));
        assert(mant_ppm(d, pc, 0) == mant_ppm(d, p_true, 0));
        if start == 0 {
            assert(body =~= s@);
        }
        assert(parse_override(s@) == Some(decimal_ppm(neg, body)));
    }
    if neg {
        Some(0)
    } else if saw {
        Some(WARINESS_SCALE)
    } else {
        proof {
            assert(acc as int == mant_ppm(d, p_true, 0));
            assert(decimal_ppm(false, body) == mant_ppm(d, p_true, 0) as u64);
        }
        Some(acc)
    }
}

/// Scales a 64-bit hash down to a millionths fraction of the hash range.
pub open spec fn scaled_ppm(h: u64) -> u64 {
    (((h as int) * (WARINESS_SCALE as int)) / (u64::MAX as int)) as u64
}

/// The wariness derived from a client identifier alone: the scaled hash,
/// clamped to [1 ppm, 1_000_000 ppm] so that it excludes exactly zero and can
/// reach exactly one.
pub open spec fn derived_wariness(id: Seq<char>) -> u64 {
    let scaled = scaled_ppm(fnv1a(id));
    if scaled == 0 {
        1u64
    } else {
        scaled
    }
}

/// The scaled hash always lies in [0, 1_000_000] ppm.
pub proof fn lemma_scaled_ppm_range(h: u64)
    ensures
        scaled_ppm(h) <= WARINESS_SCALE,
{
    assert((h as int) * (WARINESS_SCALE as int) <= (u64::MAX as int) * (WARINESS_SCALE as int))
        by (nonlinear_arith)
        requires
            h as int <= u64::MAX as int,
    ;
    assert((h as int) * (WARINESS_SCALE as int) / (u64::MAX as int) <= WARINESS_SCALE as int)
        by (nonlinear_arith)
        requires
            (h as int) * (WARINESS_SCALE as int) <= (u64::MAX as int) * (WARINESS_SCALE as int),
    ;
}

/// The identifier-derived wariness always lies in [1 ppm, 1_000_000 ppm]:
/// strictly above zero, and one is reachable.
pub proof fn lemma_derived_wariness_range(id: Seq<char>)
    ensures
        1 <= derived_wariness(id) <= WARINESS_SCALE,
{
    lemma_scaled_ppm_range(fnv1a(id));
}

/// Computes the identifier-derived wariness: scale the hash down to
/// millionths of the hash range, then clamp the left end to 1 ppm.
pub fn derive_wariness_from_identifier(id: &str) -> (w: u64)
    ensures
        w == derived_wariness(id@),
        1 <= w <= WARINESS_SCALE,
{
    let digest: u64 = hash_identifier(id);
    let scaled_wide: u128 = ((digest as u128) * (WARINESS_SCALE as u128)) / (u64::MAX as u128);
    proof {
        lemma_scaled_ppm_range(digest);
    }
    let scaled: u64 = scaled_wide as u64;
    if scaled == 0 {
        1
    } else {
        scaled
    }
}

/// The wariness a query is served with: a valid `rollout_wariness` override
/// wins; otherwise the wariness is derived from the `node_uuid` identifier
/// (the empty identifier when absent).
pub open spec fn query_wariness(q: GraphQuery) -> u64 {
    match parse_override(opt_str_view(q.rollout_wariness)) {
        Some(w) => w,
        None => derived_wariness(opt_str_view(q.node_uuid)),
    }
}

/// Computes the wariness for a query: the parsed, clamped override when one
/// is usable, else the hash-derived value for the client identifier. Pure:
/// the result is a function of the query fields alone.
pub fn compute_wariness(params: &GraphQuery) -> (w: u64)
    ensures
        w == query_wariness(*params),
        valid_wariness(w),
{
    let parsed: Option<u64> = match &params.rollout_wariness {
        Some(s) => parse_override_str(s.as_str()),
        None => {
            proof {
                assert(opt_str_view(params.rollout_wariness) =~= Seq::<char>::empty());
                assert(int_part(Seq::<char>::empty()).len() == 0);
                assert(frac_part(Seq::<char>::empty()).len() == 0);
            }
            None
        },
    };
    match parsed {
        Some(w) => w,
        None => match &params.node_uuid {
            Some(u) => derive_wariness_from_identifier(u.as_str()),
            None => {
                let w = derive_wariness_from_identifier("");
                proof {
                    reveal_strlit("");
                    assert(""@ =~= Seq::<char>::empty());
                }
                w
            },
        },
    }
}

/// Number of linear wariness histogram buckets: 0.0, 0.1, ..., 1.0.
pub const WARINESS_BUCKETS: u64 = 11;

/// The histogram bucket a wariness observation falls into: the first of the
/// eleven linear boundaries 0.0, 0.1, ..., 1.0 at or above the value.
pub open spec fn bucket_spec(w: u64) -> u64 {
    ((w + 99_999) / 100_000) as u64
}

/// Buckets a wariness observation for the rollout histogram.
pub fn wariness_bucket(w: u64) -> (b: u64)
    requires
        valid_wariness(w),
    ensures
        b == bucket_spec(w),
        b < WARINESS_BUCKETS,
{
    (w + 99_999) / 100_000
}

/// Determinism: with no usable override, one and the same identifier always
/// derives one and the same wariness.
pub proof fn lemma_wariness_deterministic(id: Seq<char>, w1: u64, w2: u64)
    requires
        w1 == derived_wariness(id),
        w2 == derived_wariness(id),
    ensures
        w1 == w2,
{
}

/// Range: an identifier-derived wariness lies in (0.0, 1.0] — at least one
/// millionth, at most one — and a parsed override lies in [0.0, 1.0].
pub proof fn lemma_wariness_range(q: GraphQuery)
    ensures
        valid_wariness(query_wariness(q)),
        parse_override(opt_str_view(q.rollout_wariness)) is None ==> 1 <= query_wariness(q),
{
    lemma_parse_override_range(opt_str_view(q.rollout_wariness));
    lemma_derived_wariness_range(opt_str_view(q.node_uuid));
}

/// Override precedence: when the override parses, the served wariness does
/// not depend on the client identifier in any way.
pub proof fn lemma_override_precedence(q1: GraphQuery, q2: GraphQuery)
    requires
        q1.rollout_wariness == q2.rollout_wariness,
        parse_override(opt_str_view(q1.rollout_wariness)) is Some,
    ensures
        query_wariness(q1) == query_wariness(q2),
        Some(query_wariness(q1)) == parse_override(opt_str_view(q1.rollout_wariness)),
{
}

} // verus!
