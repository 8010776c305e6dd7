//! Exact fixed-point decimal values.
//!
//! A measurement is an exact multiple of one billionth: `Decimal` stores the
//! integer count of billionths. Keeping the scale fixed makes comparison and
//! summation plain integer arithmetic, so the statistics folded from these
//! values are exact, with no accumulated round-off.

use vstd::prelude::*;

verus! {

/// Number of billionths in one unit: every `Decimal` is `mantissa / SCALE_FACTOR`.
pub const SCALE_FACTOR: i128 = 1_000_000_000;

/// Number of fraction digits a value text may carry.
pub const MAX_FRAC_DIGITS: usize = 9;

/// Largest admitted magnitude of a mantissa: values up to 10^18 units.
/// Bounding single values leaves ample headroom when sums of many of them
/// are accumulated in an `i128`.
pub const MANT_LIMIT: i128 = 1_000_000_000_000_000_000_000_000_000;

/// Largest admitted magnitude of the integer part of a value, in units.
pub const INT_LIMIT: i128 = 1_000_000_000_000_000_000;

/// An exact decimal value: `mantissa` billionths of a unit.
#[derive(Clone, Copy, Debug, PartialEq, Eq, Structural)]
pub struct Decimal {
    pub mantissa: i128,
}

/// 10 to the power `n`.
pub open spec fn pow10(n: nat) -> int
    decreases n,
{
    if n == 0 {
        1
    } else {
        10 * pow10((n - 1) as nat)
    }
}

/// ASCII whitespace: space, tab, line feed, form feed, carriage return.
pub open spec fn is_ws(b: u8) -> bool {
    b == 32 || b == 9 || b == 10 || b == 12 || b == 13
}

/// ASCII decimal digit.
pub open spec fn is_digit(b: u8) -> bool {
    48 <= b <= 57
}

pub open spec fn all_digits(s: Seq<u8>) -> bool {
    forall|i: int| 0 <= i < s.len() ==> is_digit(s[i])
}

/// Value of a string of decimal digits, most significant first.
pub open spec fn digits_value(s: Seq<u8>) -> int
    decreases s.len(),
{
    if s.len() == 0 {
        0
    } else {
        digits_value(s.drop_last()) * 10 + (s.last() - 48)
    }
}

/// `s` with leading ASCII whitespace removed.
pub open spec fn trim_start(s: Seq<u8>) -> Seq<u8>
    decreases s.len(),
{
    if s.len() > 0 && is_ws(s[0]) {
        trim_start(s.drop_first())
    } else {
        s
    }
}

/// `s` with trailing ASCII whitespace removed.
pub open spec fn trim_end(s: Seq<u8>) -> Seq<u8>
    decreases s.len(),
{
    if s.len() > 0 && is_ws(s.last()) {
        trim_end(s.drop_last())
    } else {
        s
    }
}

/// `s` with surrounding ASCII whitespace removed.
pub open spec fn trimmed(s: Seq<u8>) -> Seq<u8> {
    trim_end(trim_start(s))
}

/// The trimmed text with an optional leading sign removed.
pub open spec fn unsigned_part(t: Seq<u8>) -> Seq<u8> {
    if t.len() > 0 && (t[0] == 43 || t[0] == 45) {
        t.drop_first()
    } else {
        t
    }
}

/// Sign carried by the trimmed text: -1 under a leading minus, else 1.
pub open spec fn sign_of(t: Seq<u8>) -> int {
    if t.len() > 0 && t[0] == 45 {
        -1
    } else {
        1
    }
}

/// `u` reads as an unsigned decimal literal: digits, or digits around one
/// dot, with at least one digit and at most `MAX_FRAC_DIGITS` fraction
/// digits.
pub open spec fn is_unsigned_decimal(u: Seq<u8>) -> bool {
    ||| (u.len() > 0 && all_digits(u))
    ||| (u.len() >= 2 && exists|i: int|
        0 <= i < u.len() && #[trigger] u[i] == 46 && all_digits(u.take(i)) && all_digits(
            u.skip(i + 1),
        ) && u.len() - i - 1 <= MAX_FRAC_DIGITS)
}

/// Mantissa (in billionths) of an unsigned decimal literal.
pub open spec fn unsigned_mantissa(u: Seq<u8>) -> int {
    if all_digits(u) {
        digits_value(u) * SCALE_FACTOR
    } else {
        let i = choose|i: int|
            0 <= i < u.len() && #[trigger] u[i] == 46 && all_digits(u.take(i)) && all_digits(
                u.skip(i + 1),
            ) && u.len() - i - 1 <= MAX_FRAC_DIGITS;
        digits_value(u.take(i)) * SCALE_FACTOR + digits_value(u.skip(i + 1)) * pow10(
            (MAX_FRAC_DIGITS - (u.len() - i - 1)) as nat,
        )
    }
}

/// `s` reads, after trimming, as an optionally signed decimal literal.
pub open spec fn is_decimal_text(s: Seq<u8>) -> bool {
    is_unsigned_decimal(unsigned_part(trimmed(s)))
}

/// Mantissa (in billionths) denoted by the text `s`.
pub open spec fn decimal_mantissa(s: Seq<u8>) -> int {
    sign_of(trimmed(s)) * unsigned_mantissa(unsigned_part(trimmed(s)))
}

/// `s` denotes a decimal value this library admits: well-formed text whose
/// magnitude stays within `MANT_LIMIT` billionths.
pub open spec fn parses_to_decimal(s: Seq<u8>) -> bool {
    is_decimal_text(s) && -MANT_LIMIT <= decimal_mantissa(s) <= MANT_LIMIT
}

pub proof fn lemma_pow10_pos(n: nat)
    ensures
        pow10(n) >= 1,
    decreases n,
{
    if n > 0 {
        lemma_pow10_pos((n - 1) as nat);
    }
}

pub proof fn lemma_pow10_increases(a: nat, b: nat)
    requires
        a <= b,
    ensures
        pow10(a) <= pow10(b),
    decreases b,
{
    if a < b {
        lemma_pow10_increases(a, (b - 1) as nat);
        lemma_pow10_pos((b - 1) as nat);
    }
}

pub proof fn lemma_pow10_add(a: nat, b: nat)
    ensures
        pow10(a + b) == pow10(a) * pow10(b),
    decreases a,
{
    if a == 0 {
    } else {
        lemma_pow10_add((a - 1) as nat, b);
        assert(pow10((a + b - 1) as nat) == pow10((a - 1) as nat) * pow10(b));
        assert(pow10(a + b) == 10 * (pow10((a - 1) as nat) * pow10(b)));
        assert(10 * (pow10((a - 1) as nat) * pow10(b)) == (10 * pow10((a - 1) as nat)) * pow10(b))
            by (nonlinear_arith);
    }
}

pub proof fn lemma_digits_value_nonneg(s: Seq<u8>)
    requires
        all_digits(s),
    ensures
        digits_value(s) >= 0,
    decreases s.len(),
{
    if s.len() > 0 {
        assert(all_digits(s.drop_last()));
        lemma_digits_value_nonneg(s.drop_last());
        assert(is_digit(s.last()));
    }
}

pub proof fn lemma_digits_value_bound(s: Seq<u8>)
    requires
        all_digits(s),
    ensures
        0 <= digits_value(s) < pow10(s.len()),
    decreases s.len(),
{
    if s.len() == 0 {
    } else {
        assert(all_digits(s.drop_last()));
        lemma_digits_value_bound(s.drop_last());
        assert(is_digit(s.last()));
    }
}

/// A longer digit string denotes at least as large a value.
pub proof fn lemma_digits_prefix(s: Seq<u8>, k: int)
    requires
        all_digits(s),
        0 <= k <= s.len(),
    ensures
        digits_value(s.take(k)) <= digits_value(s),
    decreases s.len() - k,
{
    if k < s.len() {
        assert(all_digits(s.take(k)));
        lemma_digits_value_nonneg(s.take(k));
        assert(s.take(k + 1).drop_last() =~= s.take(k));
        assert(s.take(k + 1).last() == s[k]);
        assert(digits_value(s.take(k + 1)) == digits_value(s.take(k)) * 10 + (s[k] - 48));
        assert(is_digit(s[k]));
        lemma_digits_prefix(s, k + 1);
    } else {
        assert(s.take(k) =~= s);
    }
}

/// Wherever a dot stands in the text, any witness for the dotted reading of
/// `is_unsigned_decimal` is that dot itself, and the digits-only reading
/// fails.
pub proof fn lemma_unique_dot(u: Seq<u8>, d: int)
    requires
        0 <= d < u.len(),
        u[d] == 46,
    ensures
        !all_digits(u),
        forall|i: int|
            (0 <= i < u.len() && #[trigger] u[i] == 46 && all_digits(u.take(i)) && all_digits(
                u.skip(i + 1),
            )) ==> i == d,
{
    assert(!is_digit(u[d]));
    assert forall|i: int|
        (0 <= i < u.len() && #[trigger] u[i] == 46 && all_digits(u.take(i)) && all_digits(
            u.skip(i + 1),
        )) implies i == d by {
        if i < d {
            assert(u.skip(i + 1)[d - i - 1] == u[d]);
            assert(is_digit(u.skip(i + 1)[d - i - 1]));
        } else if i > d {
            assert(u.take(i)[d] == u[d]);
            assert(is_digit(u.take(i)[d]));
        }
    }
}

/// A byte that is neither a digit nor a dot rules the text out.
pub proof fn lemma_not_decimal_at(u: Seq<u8>, p: int)
    requires
        0 <= p < u.len(),
        !is_digit(u[p]),
        u[p] != 46,
    ensures
        !is_unsigned_decimal(u),
{
    assert forall|i: int|
        !(0 <= i < u.len() && #[trigger] u[i] == 46 && all_digits(u.take(i)) && all_digits(
            u.skip(i + 1),
        ) && u.len() - i - 1 <= MAX_FRAC_DIGITS) by {
        if 0 <= i < u.len() && u[i] == 46 && all_digits(u.take(i)) && all_digits(u.skip(i + 1)) {
            if p < i {
                assert(u.take(i)[p] == u[p]);
                assert(is_digit(u.take(i)[p]));
            } else if p > i {
                assert(u.skip(i + 1)[p - i - 1] == u[p]);
                assert(is_digit(u.skip(i + 1)[p - i - 1]));
            }
        }
    }
}

/// Grammar and value of an unsigned decimal whose dot stands at `d`.
pub proof fn lemma_dotted_value(u: Seq<u8>, d: int)
    requires
        0 <= d < u.len(),
        u.len() >= 2,
        u[d] == 46,
        all_digits(u.take(d)),
        all_digits(u.skip(d + 1)),
        u.len() - d - 1 <= MAX_FRAC_DIGITS,
    ensures
        is_unsigned_decimal(u),
        unsigned_mantissa(u) == digits_value(u.take(d)) * SCALE_FACTOR + digits_value(
            u.skip(d + 1),
        ) * pow10((MAX_FRAC_DIGITS - (u.len() - d - 1)) as nat),
{
    lemma_unique_dot(u, d);
    let i = choose|i: int|
        0 <= i < u.len() && #[trigger] u[i] == 46 && all_digits(u.take(i)) && all_digits(
            u.skip(i + 1),
        ) && u.len() - i - 1 <= MAX_FRAC_DIGITS;
    assert(i == d);
}

/// Once the digits before the dot exceed `INT_LIMIT`, the value exceeds
/// `MANT_LIMIT` billionths under every reading of the remaining text.
proof fn lemma_int_part_too_large(u: Seq<u8>, k: int, acc: int)
    requires
        0 <= k <= u.len(),
        forall|j: int| 0 <= j < k ==> is_digit(#[trigger] u[j]),
        acc == digits_value(u.take(k)),
        acc > INT_LIMIT,
    ensures
        !(is_unsigned_decimal(u) && unsigned_mantissa(u) <= MANT_LIMIT),
{
    if is_unsigned_decimal(u) {
        if all_digits(u) {
            lemma_digits_prefix(u, k);
            assert(digits_value(u) > INT_LIMIT);
            assert(digits_value(u) * SCALE_FACTOR > INT_LIMIT * SCALE_FACTOR) by (nonlinear_arith)
                requires
                    digits_value(u) > INT_LIMIT,
                    INT_LIMIT > 0,
            ;
        } else {
            let i = choose|i: int|
                0 <= i < u.len() && #[trigger] u[i] == 46 && all_digits(u.take(i)) && all_digits(
                    u.skip(i + 1),
                ) && u.len() - i - 1 <= MAX_FRAC_DIGITS;
            assert(u[i] == 46 && !is_digit(u[i]));
            assert(i >= k);
            assert(u.take(i).take(k) =~= u.take(k));
            lemma_digits_prefix(u.take(i), k);
            assert(digits_value(u.take(i)) > INT_LIMIT);
            let fv = digits_value(u.skip(i + 1));
            let fp = pow10((MAX_FRAC_DIGITS - (u.len() - i - 1)) as nat);
            lemma_digits_value_nonneg(u.skip(i + 1));
            lemma_pow10_pos((MAX_FRAC_DIGITS - (u.len() - i - 1)) as nat);
            assert(digits_value(u.take(i)) * SCALE_FACTOR + fv * fp > INT_LIMIT * SCALE_FACTOR)
                by (nonlinear_arith)
                requires
                    digits_value(u.take(i)) > INT_LIMIT,
                    INT_LIMIT > 0,
                    fv >= 0,
                    fp >= 1,
            ;
        }
    }
}

impl Decimal {
    pub fn new(mantissa: i128) -> (r: Decimal)
        ensures
            r.mantissa == mantissa,
    {
        Decimal { mantissa }
    }

    /// The whole-unit value `units`, e.g. `Decimal::from_units(3)` is 3.0.
    pub fn from_units(units: i64) -> (r: Decimal)
        ensures
            r.mantissa == units * SCALE_FACTOR,
    {
        Decimal { mantissa: (units as i128) * SCALE_FACTOR }
    }
}

/// 10 to the power `n`, executably, for the small exponents the parser needs.
fn pow10_exec(n: usize) -> (r: i128)
    requires
        n <= MAX_FRAC_DIGITS,
    ensures
        r == pow10(n as nat),
{
    let mut r: i128 = 1;
    let mut k: usize = 0;
    while k < n
        invariant
            k <= n <= MAX_FRAC_DIGITS,
            r == pow10(k as nat),
        decreases n - k,
    {
        proof {
            lemma_pow10_increases(k as nat, MAX_FRAC_DIGITS as nat);
            lemma_pow10_increases(MAX_FRAC_DIGITS as nat, 9);
            lemma_pow10_pos(k as nat);
            assert(pow10(9) == 1_000_000_000) by {
                reveal_with_fuel(pow10, 10);
            }
        }
        r = r * 10;
        k = k + 1;
    }
    r
}

/// Parse the bytes `s[lo..hi]` as an unsigned decimal literal, exactly, in
/// billionths. Returns the mantissa precisely when the text is well formed
/// and its value does not exceed `MANT_LIMIT` billionths.
fn parse_unsigned(s: &[u8], lo: usize, hi: usize) -> (r: Option<i128>)
    requires
        lo <= hi <= s.len(),
    ensures
        r is Some <==> (is_unsigned_decimal(s@.subrange(lo as int, hi as int))
            && unsigned_mantissa(s@.subrange(lo as int, hi as int)) <= MANT_LIMIT),
        r matches Some(m) ==> m == unsigned_mantissa(s@.subrange(lo as int, hi as int)) && 0 <= m
            <= MANT_LIMIT,
{
    let ghost u = s@.subrange(lo as int, hi as int);
    let mut i = lo;
    let mut acc: i128 = 0;
    while i < hi && s[i] != 46
        invariant
            lo <= i <= hi <= s.len(),
            u == s@.subrange(lo as int, hi as int),
            forall|j: int| 0 <= j < i - lo ==> is_digit(#[trigger] u[j]),
            acc == digits_value(u.take(i - lo)),
            0 <= acc <= INT_LIMIT,
        decreases hi - i,
    {
        let b = s[i];
        assert(u[i - lo] == b);
        if !(48 <= b && b <= 57) {
            proof {
                lemma_not_decimal_at(u, i - lo);
            }
            return None;
        }
        proof {
            assert(u.take(i - lo + 1).drop_last() =~= u.take(i - lo));
            assert(u.take(i - lo + 1).last() == u[i - lo]);
        }
        acc = acc * 10 + ((b - 48) as i128);
        i = i + 1;
        if acc > INT_LIMIT {
            proof {
                lemma_int_part_too_large(u, i - lo, acc as int);
            }
            return None;
        }
    }
    if i == hi {
        // No dot: the text must be one or more digits.
        if lo == hi {
            return None;
        }
        proof {
            assert(u.take(i - lo) =~= u);
            assert(is_unsigned_decimal(u));
            assert(unsigned_mantissa(u) == acc * SCALE_FACTOR);
            assert(acc * SCALE_FACTOR <= INT_LIMIT * SCALE_FACTOR) by (nonlinear_arith)
                requires
                    0 <= acc <= INT_LIMIT,
            ;
            assert(acc * SCALE_FACTOR >= 0) by (nonlinear_arith)
                requires
                    acc >= 0,
            ;
        }
        return Some(acc * SCALE_FACTOR);
    }
    // A dot stands at `i`.
    let dot = i;
    assert(u[dot - lo] == 46);
    if hi - lo < 2 {
        proof {
            lemma_unique_dot(u, dot - lo);
        }
        return None;
    }
    let ghost fr = u.skip(dot - lo + 1);
    let mut facc: i128 = 0;
    let mut f: usize = 0;
    i = i + 1;
    while i < hi
        invariant
            lo <= dot < i <= hi <= s.len(),
            u == s@.subrange(lo as int, hi as int),
            fr == u.skip(dot - lo + 1),
            u[dot - lo] == 46,
            forall|j: int| 0 <= j < dot - lo ==> is_digit(#[trigger] u[j]),
            acc == digits_value(u.take(dot - lo)),
            0 <= acc <= INT_LIMIT,
            f == i - dot - 1 <= MAX_FRAC_DIGITS,
            forall|j: int| 0 <= j < f ==> is_digit(#[trigger] fr[j]),
            facc == digits_value(fr.take(f as int)),
            0 <= facc < pow10(f as nat),
        decreases hi - i,
    {
        let b = s[i];
        assert(fr[i - dot - 1] == b) by {
            assert(fr[i - dot - 1] == u[i - lo]);
        }
        if !(48 <= b && b <= 57) {
            if b == 46 {
                proof {
                    lemma_unique_dot(u, i - lo);
                    lemma_unique_dot(u, dot - lo);
                }
            } else {
                proof {
                    lemma_not_decimal_at(u, i - lo);
                }
            }
            return None;
        }
        if f == MAX_FRAC_DIGITS {
            // More than MAX_FRAC_DIGITS fraction digits: not representable.
            proof {
                lemma_unique_dot(u, dot - lo);
            }
            return None;
        }
        proof {
            assert(fr.take(f + 1).drop_last() =~= fr.take(f as int));
            assert(fr.take(f + 1).last() == fr[f as int]);
            lemma_pow10_increases((f + 1) as nat, 9);
            assert(pow10(9) == 1_000_000_000) by {
                reveal_with_fuel(pow10, 10);
            }
        }
        facc = facc * 10 + ((b - 48) as i128);
        f = f + 1;
        i = i + 1;
    }
    proof {
        assert(fr.take(f as int) =~= fr);
        lemma_dotted_value(u, dot - lo);
        lemma_pow10_increases((MAX_FRAC_DIGITS - f) as nat, 9);
        assert(pow10(9) == 1_000_000_000) by {
            reveal_with_fuel(pow10, 10);
        }
    }
    let scale = pow10_exec(MAX_FRAC_DIGITS - f);
    proof {
        lemma_pow10_pos((MAX_FRAC_DIGITS - f) as nat);
        lemma_pow10_add(f as nat, (MAX_FRAC_DIGITS - f) as nat);
        assert(pow10(MAX_FRAC_DIGITS as nat) == SCALE_FACTOR) by {
            reveal_with_fuel(pow10, 10);
        }
    }
    assert(acc * SCALE_FACTOR <= INT_LIMIT * SCALE_FACTOR && acc * SCALE_FACTOR >= 0)
        by (nonlinear_arith)
        requires
            0 <= acc <= INT_LIMIT,
    ;
    assert(facc * scale < SCALE_FACTOR && facc * scale >= 0) by (nonlinear_arith)
        requires
            0 <= facc < pow10(f as nat),
            scale == pow10((MAX_FRAC_DIGITS - f) as nat),
            scale >= 1,
            pow10(f as nat) * pow10((MAX_FRAC_DIGITS - f) as nat) == SCALE_FACTOR,
    ;
    let m = acc * SCALE_FACTOR + facc * scale;
    if m > MANT_LIMIT {
        return None;
    }
    Some(m)
}

/// Parse a value segment as an exact decimal, accepting surrounding ASCII
/// whitespace and an optional leading sign. Succeeds exactly on the texts
/// `parses_to_decimal` admits, and then returns exactly the denoted value.
pub fn parse_decimal(s: &[u8]) -> (r: Option<Decimal>)
    ensures
        r is Some <==> parses_to_decimal(s@),
        r matches Some(d) ==> d.mantissa == decimal_mantissa(s@),
{
    let mut lo: usize = 0;
    let mut hi: usize = s.len();
    proof {
        assert(s@.subrange(0, s.len() as int) =~= s@);
    }
    while lo < hi && (s[lo] == 32 || s[lo] == 9 || s[lo] == 10 || s[lo] == 12 || s[lo] == 13)
        invariant
            0 <= lo <= hi == s.len(),
            trim_start(s@) == trim_start(s@.subrange(lo as int, s.len() as int)),
        decreases hi - lo,
    {
        proof {
            let t = s@.subrange(lo as int, s.len() as int);
            assert(t[0] == s@[lo as int]);
            assert(is_ws(t[0]));
            assert(t.drop_first() =~= s@.subrange(lo as int + 1, s.len() as int));
        }
        lo = lo + 1;
    }
    proof {
        let t = s@.subrange(lo as int, s.len() as int);
        if lo < hi {
            assert(t[0] == s@[lo as int]);
            assert(!is_ws(t[0]));
        }
        assert(trim_start(s@) == t);
    }
    while hi > lo && (s[hi - 1] == 32 || s[hi - 1] == 9 || s[hi - 1] == 10 || s[hi - 1] == 12 || s[
        hi - 1] == 13)
        invariant
            0 <= lo <= hi <= s.len(),
            trim_start(s@) == s@.subrange(lo as int, s.len() as int),
            trimmed(s@) == trim_end(s@.subrange(lo as int, hi as int)),
        decreases hi,
    {
        proof {
            let t = s@.subrange(lo as int, hi as int);
            assert(t.last() == s@[hi - 1]);
            assert(is_ws(t.last()));
            assert(t.drop_last() =~= s@.subrange(lo as int, hi as int - 1));
        }
        hi = hi - 1;
    }
    proof {
        let t = s@.subrange(lo as int, hi as int);
        if lo < hi {
            assert(t.last() == s@[hi - 1]);
            assert(!is_ws(t.last()));
        }
        assert(trimmed(s@) == t);
    }
    let ghost t = s@.subrange(lo as int, hi as int);
    let mut neg = false;
    let mut lo2 = lo;
    if lo < hi && (s[lo] == 43 || s[lo] == 45) {
        neg = s[lo] == 45;
        lo2 = lo + 1;
        proof {
            assert(t[0] == s@[lo as int]);
            assert(t.drop_first() =~= s@.subrange(lo as int + 1, hi as int));
        }
    }
    let ghost up = s@.subrange(lo2 as int, hi as int);
    proof {
        assert(unsigned_part(t) == up);
        assert(sign_of(t) == if neg { -1int } else { 1int });
    }
    match parse_unsigned(s, lo2, hi) {
        None => {
            proof {
                if is_decimal_text(s@) {
                    lemma_unsigned_mantissa_nonneg(up);
                }
            }
            None
        },
        Some(m) => {
            let mantissa = if neg {
                -m
            } else {
                m
            };
            Some(Decimal { mantissa })
        },
    }
}

/// A well-formed unsigned decimal denotes a nonnegative value.
proof fn lemma_unsigned_mantissa_nonneg(u: Seq<u8>)
    requires
        is_unsigned_decimal(u),
    ensures
        unsigned_mantissa(u) >= 0,
{
    if all_digits(u) {
        lemma_digits_value_nonneg(u);
        assert(digits_value(u) * SCALE_FACTOR >= 0) by (nonlinear_arith)
            requires
                digits_value(u) >= 0,
        ;
    } else {
        let i = choose|i: int|
            0 <= i < u.len() && #[trigger] u[i] == 46 && all_digits(u.take(i)) && all_digits(
                u.skip(i + 1),
            ) && u.len() - i - 1 <= MAX_FRAC_DIGITS;
        lemma_digits_value_nonneg(u.take(i));
        lemma_digits_value_nonneg(u.skip(i + 1));
        lemma_pow10_pos((MAX_FRAC_DIGITS - (u.len() - i - 1)) as nat);
        assert(digits_value(u.take(i)) * SCALE_FACTOR >= 0 && digits_value(u.skip(i + 1)) * pow10(
            (MAX_FRAC_DIGITS - (u.len() - i - 1)) as nat,
        ) >= 0) by (nonlinear_arith)
            requires
                digits_value(u.take(i)) >= 0,
                digits_value(u.skip(i + 1)) >= 0,
                pow10((MAX_FRAC_DIGITS - (u.len() - i - 1)) as nat) >= 1,
        ;
    }
}

} // verus!
