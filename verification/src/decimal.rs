//! The doubles that decimal numbers stand for.
use vstd::prelude::*;
use vstd::arithmetic::power::*;
use vstd::arithmetic::power2::*;
use crate::arith::NOT_A_NUMBER;
use crate::big::{Big, Comparison};
use crate::number::{round_ratio, Number, INFINITY, SIGN};

verus! {

/// 10 to the power 30: exponents from here on are all the same.
const LIMIT: u128 = 1000000000000000000000000000000;

/// The number that digits stand for, from `a` up to `b`.
pub open spec fn digits_value(s: Seq<char>, a: int, b: int) -> nat
    decreases b - a,
{
    if a >= b {
        0
    } else {
        digits_value(s, a, b - 1) * 10 + (s[b - 1] as nat - '0' as nat) as nat
    }
}

/// How many digits stand behind the point, in a number whose digits before it end at `d` and whose
/// exponent begins at `e`.
pub open spec fn places(d: int, e: int) -> nat {
    if e > d {
        (e - d - 1) as nat
    } else {
        0
    }
}

/// All digits of such a number, without the point.
pub open spec fn mantissa(s: Seq<char>, d: int, e: int) -> nat {
    (digits_value(s, 0, d) * pow(10, places(d, e)) + digits_value(s, d + 1, e)) as nat
}

/// The exponent of such a number, as written.
pub open spec fn exponent(s: Seq<char>, e: int) -> int {
    if e >= s.len() {
        0
    } else if e + 1 < s.len() && s[e + 1] == '-' {
        -(digits_value(s, e + 2, s.len() as int) as int)
    } else if e + 1 < s.len() && s[e + 1] == '+' {
        digits_value(s, e + 2, s.len() as int) as int
    } else {
        digits_value(s, e + 1, s.len() as int) as int
    }
}

impl Number {
    /// Whether `self` is the non-negative double nearest to `m` times 10 to the power `e`.
    pub open spec fn nearest_decimal(self, m: nat, e: int) -> bool {
        if e >= 0 {
            self.nearest_ratio(m * pow(10, e as nat) * pow2(1074), 1)
        } else {
            self.nearest_ratio((m * pow2(1074)) as int, pow(10, (-e) as nat))
        }
    }

    /// The non-negative double nearest to `m` times 10 to the power `e`.
    pub open spec fn of_decimal(m: nat, e: int) -> Number {
        choose|n: Number| n.nearest_decimal(m, e)
    }
}

/// The double that a decimal number without a sign stands for.
pub open spec fn decimal_number(s: Seq<char>) -> Number {
    let (d, e) = choose|d: int, e: int| crate::text::decimal_at(s, d, e);
    Number::of_decimal(mantissa(s, d, e), exponent(s, e) - places(d, e))
}

/// The double that a number literal without a sign stands for: a decimal number, or one of the words.
pub open spec fn unsigned_number(s: Seq<char>) -> Number {
    if crate::text::decimal(s) {
        decimal_number(s)
    } else if crate::text::ascii_lower(s[0]) == 'i' {
        Number::of(INFINITY as int)
    } else {
        Number::of(NOT_A_NUMBER as int)
    }
}

/// The double that a number literal stands for, with a sign or without.
pub open spec fn literal_number(s: Seq<char>) -> Number {
    if s[0] == '-' {
        Number::of(unsigned_number(s.drop_first()).bits + SIGN)
    } else {
        unsigned_number(crate::text::unsigned(s))
    }
}

/// There is one double nearest to a decimal number.
pub proof fn law_of_decimal(n: Number, m: nat, e: int)
    requires
        n.nearest_decimal(m, e),
    ensures
        n == Number::of_decimal(m, e),
{
    let o = Number::of_decimal(m, e);
    assert(o.nearest_decimal(m, e));
    if e >= 0 {
        let x = m * pow(10, e as nat) * pow2(1074);
        crate::number::lemma_ratio_unique(n, o, x, 1);
        crate::number::lemma_ratio_unique(o, n, x, 1);
    } else {
        lemma_pow_positive(10, (-e) as nat);
        let x = (m * pow2(1074)) as int;
        crate::number::lemma_ratio_unique(n, o, x, pow(10, (-e) as nat));
        crate::number::lemma_ratio_unique(o, n, x, pow(10, (-e) as nat));
    }
}

/// 10 to the power 19 is more than 2 to the power 63.
proof fn lemma_tens(k: nat)
    ensures
        pow(10, 19 * k) >= pow2(63 * k),
    decreases k,
{
    if k == 0 {
        lemma_pow0(10);
        lemma2_to64();
    } else {
        let j = (k - 1) as nat;
        lemma_tens(j);
        lemma_pow_adds(10, 19, 19 * j);
        lemma_pow2_adds(63, 63 * j);
        assert(19 * k == 19 + 19 * j && 63 * k == 63 + 63 * j);
        reveal_with_fuel(pow, 20);
        assert(pow(10, 19) == 10000000000000000000);
        lemma2_to64();
        lemma2_to64_rest();
        assert(pow2(63) == 0x8000_0000_0000_0000);
        lemma_pow2_pos(63 * j);
        let (a, b, c, d) = (pow(10, 19), pow(10, 19 * j), pow2(63) as int, pow2(63 * j) as int);
        assert(a * b >= c * d) by (nonlinear_arith)
            requires
                a >= c,
                b >= d,
                c > 0,
                d > 0,
        ;
    }
}

/// Powers of ten grow.
proof fn lemma_pow_grows(a: nat, b: nat)
    requires
        a <= b,
    ensures
        0 < pow(10, a) <= pow(10, b),
{
    lemma_pow_positive(10, a);
    lemma_pow_increases(10, a, b);
}

/// A number with so large an exponent is infinite.
proof fn lemma_huge(m: nat, e: int)
    requires
        m > 0,
        e >= 323,
    ensures
        Number::of(INFINITY as int).nearest_decimal(m, e),
{
    lemma_tens(17);
    lemma_pow_grows(323, e as nat);
    lemma_pow2_adds(1071, 1074);
    let (p, u) = (pow(10, e as nat), pow2(1074) as int);
    let x = m * p * u;
    lemma_pow2_pos(1074);
    lemma_pow2_pos(1071);
    let w = pow2(1071) as int;
    assert(m * p >= w) by (nonlinear_arith)
        requires
            m >= 1,
            p >= w,
            w > 0,
    ;
    assert(x >= w * u) by (nonlinear_arith)
        requires
            x == (m * p) * u,
            m * p >= w,
            u > 0,
    ;
    lemma_pow2_strictly_increases(2098, 2145);
    crate::number::lemma_infinite(x);
}

/// A number with so many places behind the point is 0.
proof fn lemma_tiny(m: nat, e: int, digits: nat)
    requires
        m < pow(10, digits),
        e + digits <= -342,
    ensures
        Number::of(0).nearest_decimal(m, e),
{
    let k = (-e) as nat;
    let j = (k - digits) as nat;
    lemma_tens(18);
    lemma_pow_grows(342, j);
    lemma_pow_adds(10, digits, j);
    assert(digits + j == k);
    lemma_pow_grows(0, k);
    lemma_pow_positive(10, digits);
    lemma_pow2_adds(1, 1074);
    lemma_pow2_strictly_increases(1075, 1134);
    lemma2_to64();
    let (p, q, w, t) = (pow(10, digits), pow(10, j), pow2(1075) as int, pow(10, k));
    lemma_pow2_pos(1075);
    assert(m * w <= t) by (nonlinear_arith)
        requires
            t == p * q,
            0 <= m < p,
            q >= w,
            w > 0,
    ;
    let u = pow2(1074) as int;
    assert(2 * (m * u) == m * w) by (nonlinear_arith)
        requires
            w == 2 * u,
    ;
    assert(m * u >= 0) by (nonlinear_arith)
        requires
            m >= 0,
            u > 0,
    ;
    crate::number::lemma_zero((m * u) as int, t);
}

/// 0 is 0 with any exponent.
proof fn lemma_none(e: int)
    ensures
        Number::of(0).nearest_decimal(0, e),
{
    if e >= 0 {
        let p = pow(10, e as nat);
        assert(0 * p == 0 && 0 * pow2(1074) == 0);
        crate::number::lemma_zero(0, 1);
    } else {
        lemma_pow_positive(10, (-e) as nat);
        assert(0 * pow2(1074) == 0);
        crate::number::lemma_zero(0, pow(10, (-e) as nat));
    }
}

/// How much a digit stands for.
fn digit_value(c: char) -> (r: u64)
    requires
        crate::text::digit(c),
    ensures
        r == c as int - '0' as int,
        r < 10,
{
    (c as u32 - '0' as u32) as u64
}

/// Puts digits behind a number.
fn append_digits(start: Big, s: &Vec<char>, a: usize, b: usize) -> (r: Big)
    requires
        a <= b <= s@.len(),
        crate::text::digits(s@, a as int, b as int),
    ensures
        r.value() == start.value() * pow(10, (b - a) as nat) + digits_value(
            s@,
            a as int,
            b as int,
        ),
{
    let ghost v = start.value();
    let mut r = start;
    let mut i = a;
    proof {
        lemma_pow0(10);
        assert(v * 1 == v);
    }
    while i < b
        invariant
            a <= i <= b <= s@.len(),
            crate::text::digits(s@, a as int, b as int),
            r.value() == v * pow(10, (i - a) as nat) + digits_value(s@, a as int, i as int),
        decreases b - i,
    {
        assert(crate::text::digit(s@[i as int]));
        let c = digit_value(s[i]);
        proof {
            lemma_pow1(10);
            lemma_pow_adds(10, (i - a) as nat, 1);
            let (p, w) = (pow(10, (i - a) as nat), digits_value(s@, a as int, i as int) as int);
            assert((v * p + w) * 10 + c == v * (p * 10) + (w * 10 + c)) by (nonlinear_arith);
            assert((i + 1 - a) as nat == (i - a) as nat + 1);
        }
        r = r.times_plus(10, c);
        i = i + 1;
    }
    r
}

/// Digits stand for less than the power of ten with as many zeros.
proof fn lemma_digits_bound(s: Seq<char>, a: int, b: int)
    requires
        a <= b,
        crate::text::digits(s, a, b),
    ensures
        digits_value(s, a, b) < pow(10, (b - a) as nat),
    decreases b - a,
{
    if a == b {
        lemma_pow0(10);
    } else {
        lemma_digits_bound(s, a, b - 1);
        assert(crate::text::digit(s[b - 1]));
        lemma_pow1(10);
        lemma_pow_adds(10, (b - 1 - a) as nat, 1);
        assert((b - a) as nat == (b - 1 - a) as nat + 1);
    }
}

/// All digits stand for less than the power of ten with as many zeros.
proof fn lemma_mantissa_bound(s: Seq<char>, d: int, e: int)
    requires
        crate::text::decimal_at(s, d, e),
    ensures
        mantissa(s, d, e) < pow(10, (d + places(d, e)) as nat),
{
    lemma_digits_bound(s, 0, d);
    let f = places(d, e);
    lemma_pow_adds(10, d as nat, f);
    lemma_pow_positive(10, f);
    let (x, p, q) = (digits_value(s, 0, d) as int, pow(10, d as nat), pow(10, f));
    assert(x * q + q <= p * q) by (nonlinear_arith)
        requires
            x + 1 <= p,
            q > 0,
    ;
    if e > d {
        lemma_digits_bound(s, d + 1, e);
    }
}

/// The number that digits stand for, or one as good where it is beyond all bounds.
fn capped_value(s: &Vec<char>, a: usize) -> (r: u128)
    requires
        a <= s@.len(),
        crate::text::digits(s@, a as int, s@.len() as int),
    ensures
        r < 100 * LIMIT,
        r == digits_value(s@, a as int, s@.len() as int) || (r
            >= LIMIT && digits_value(
            s@,
            a as int,
            s@.len() as int,
        ) >= LIMIT),
{
    let mut r: u128 = 0;
    let mut i = a;
    while i < s.len()
        invariant
            a <= i <= s@.len(),
            crate::text::digits(s@, a as int, s@.len() as int),
            r < 100 * LIMIT,
            r == digits_value(s@, a as int, i as int) || (r >= LIMIT
                && digits_value(s@, a as int, i as int) >= LIMIT),
        decreases s@.len() - i,
    {
        assert(crate::text::digit(s@[i as int]));
        if r < LIMIT {
            r = r * 10 + digit_value(s[i]) as u128;
        }
        i = i + 1;
    }
    r
}

/// Whether an exponent is as good as another: the same, or beyond all bounds as the other.
spec fn as_good(r: int, x: int) -> bool {
    r == x || (r >= LIMIT && x >= LIMIT) || (r <= -LIMIT && x <= -LIMIT)
}

/// The exponent of a decimal number, or one as good.
fn exponent_of(s: &Vec<char>, e: usize) -> (r: i128)
    requires
        e <= s@.len(),
        e == s@.len() || crate::text::exponent_from(s@, e as int),
    ensures
        -100 * LIMIT < r < 100 * LIMIT,
        as_good(r as int, exponent(s@, e as int)),
{
    let n = s.len();
    if e == n {
        return 0;
    }
    if e + 1 < n && s[e + 1] == '-' {
        -(capped_value(s, e + 2) as i128)
    } else if e + 1 < n && s[e + 1] == '+' {
        capped_value(s, e + 2) as i128
    } else {
        capped_value(s, e + 1) as i128
    }
}

/// A number times 10 to the power `k`.
fn times_ten_to(start: Big, k: i128) -> (r: Big)
    requires
        k >= 0,
    ensures
        r.value() == start.value() * pow(10, k as nat),
{
    let ghost v = start.value();
    let mut r = start;
    let mut i: i128 = 0;
    proof {
        lemma_pow0(10);
        assert(v * 1 == v);
    }
    while i < k
        invariant
            0 <= i <= k,
            r.value() == v * pow(10, i as nat),
        decreases k - i,
    {
        proof {
            lemma_pow1(10);
            lemma_pow_adds(10, i as nat, 1);
            let p = pow(10, i as nat);
            assert((v * p) * 10 + 0 == v * (p * 10)) by (nonlinear_arith);
        }
        r = r.times_plus(10, 0);
        i = i + 1;
    }
    r
}

/// The double that a decimal number without a sign stands for.
fn decimal_of(s: &Vec<char>, d: usize, e: usize) -> (r: Number)
    requires
        crate::text::decimal_at(s@, d as int, e as int),
    ensures
        r == Number::of_decimal(
            mantissa(s@, d as int, e as int),
            exponent(s@, e as int) - places(d as int, e as int),
        ),
        r.bits < SIGN,
{
    let ghost (gd, ge) = (d as int, e as int);
    let ghost m = mantissa(s@, gd, ge);
    let ghost f = places(gd, ge);
    let ghost x = exponent(s@, ge) - f;
    let whole = append_digits(Big::of(0), s, 0, d);
    proof {
        let p = pow(10, (d - 0) as nat);
        assert(0 * p == 0);
        lemma_mantissa_bound(s@, gd, ge);
    }
    let count: usize = if e > d {
        e - d - 1
    } else {
        0
    };
    let all = if e > d {
        append_digits(whole, s, d + 1, e)
    } else {
        proof {
            lemma_pow0(10);
            let v = digits_value(s@, 0, gd) as int;
            assert(v * 1 == v);
        }
        whole
    };
    proof {
        lemma_pow_positive(10, f);
        let (v, p) = (digits_value(s@, 0, gd) as int, pow(10, f));
        assert(v * p >= 0) by (nonlinear_arith)
            requires
                v >= 0,
                p > 0,
        ;
        assert(all.value() == m);
    }
    let exp = exponent_of(s, e) - count as i128;
    assert(as_good(exp + f, x + f));
    let r = if all.compare(&Big::of(0)) == Comparison::Equal {
        proof {
            lemma_none(x);
        }
        Number { bits: 0 }
    } else if exp >= 323 {
        proof {
            lemma_huge(m, x);
        }
        Number { bits: INFINITY }
    } else if exp + (d as i128) + (count as i128) <= -342 {
        proof {
            lemma_tiny(m, x, (d + f) as nat);
        }
        Number { bits: 0 }
    } else {
        assert(exp == x);
        if exp >= 0 {
            let n = times_ten_to(all, exp);
            round_ratio(&n.shifted(1074), &Big::of(1))
        } else {
            proof {
                lemma_pow_positive(10, (-x) as nat);
            }
            let ten = times_ten_to(Big::of(1), -exp);
            proof {
                let p = pow(10, (-x) as nat);
                assert(1 * p == p);
            }
            round_ratio(&all.shifted(1074), &ten)
        }
    };
    proof {
        law_of_decimal(r, m, x);
    }
    r
}

/// The double that a decimal number stands for; none where a text is no such number.
pub fn parse_decimal(s: &str) -> (r: Option<Number>)
    ensures
        r is Some <==> crate::text::decimal(crate::text::unsigned(s@)),
        r matches Some(n) ==> n == literal_number(s@),
{
    let negative = s.unicode_len() > 0 && s.get_char(0) == '-';
    let rest = crate::text::unsigned_chars(s);
    match crate::text::find_decimal(&rest) {
        Some((d, e)) => {
            proof {
                let (d2, e2) = choose|d2: int, e2: int| crate::text::decimal_at(rest@, d2, e2);
                assert(crate::text::decimal_at(rest@, d2, e2));
            }
            let n = decimal_of(&rest, d, e);
            if negative {
                Some(Number { bits: n.bits + SIGN })
            } else {
                Some(n)
            }
        },
        None => None,
    }
}

/// The double that a number literal stands for; none where a text is no such literal.
pub fn parse_number(s: &str) -> (r: Option<Number>)
    ensures
        r is Some <==> crate::text::number_literal(s@),
        r matches Some(n) ==> n == literal_number(s@),
{
    if let Some(n) = parse_decimal(s) {
        return Some(n);
    }
    let negative = s.unicode_len() > 0 && s.get_char(0) == '-';
    let rest = crate::text::unsigned_chars(s);
    if !crate::text::is_number_word(&rest) {
        return None;
    }
    proof {
        let w = rest@.map_values(|c: char| crate::text::ascii_lower(c));
        assert(w.len() == rest@.len());
        assert(w[0] == crate::text::ascii_lower(rest@[0]));
    }
    let bits = if crate::text::lower_char(rest[0]) == 'i' {
        INFINITY
    } else {
        NOT_A_NUMBER
    };
    if negative {
        Some(Number { bits: bits + SIGN })
    } else {
        Some(Number { bits })
    }
}

}
