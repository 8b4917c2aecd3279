//! What holds of numbers: their values, their sums and means, and the decimal numbers that they are
//! read from.
use vstd::prelude::*;
use vstd::arithmetic::power::*;
use vstd::arithmetic::power2::*;
use crate::arith::{ONE_AND_A_HALF, TWO};
use crate::number::{Number, HIDDEN, INFINITY, ONE, SIGN};

verus! {

/// The distance of two integers.
pub open spec fn gap(a: int, b: int) -> int {
    if a < b {
        b - a
    } else {
        a - b
    }
}

/// The values of doubles: below the least normal one they count up by one unit, from there on a step
/// in the exponent doubles them, and between two steps they are evenly spaced.
pub proof fn law_values_of_doubles(n: Number)
    requires
        n.bits < INFINITY,
    ensures
        n.bits <= HIDDEN ==> n.exact() == n.bits,
        n.bits >= HIDDEN && n.bits + HIDDEN < INFINITY ==> Number::of(n.bits + HIDDEN).exact() == 2
            * n.exact(),
        n.bits >= HIDDEN ==> Number::of(n.bits + 1).size() - n.size() == pow2(
            (n.bits as int / (HIDDEN as int) - 1) as nat,
        ),
        Number::of(n.bits + SIGN).exact() == -n.exact(),
{
    lemma2_to64();
    crate::number::lemma_next(n);
    let h = HIDDEN as int;
    if n.bits <= HIDDEN {
        assert(n.significand() * 1 == n.significand());
    }
    if n.bits >= HIDDEN && n.bits + HIDDEN < INFINITY {
        let m = Number::of(n.bits + HIDDEN);
        assert(m.bits as int / h == n.bits as int / h + 1 && m.bits as int % h == n.bits as int % h)
            by {
            vstd::arithmetic::div_mod::lemma_div_plus_one(n.bits as int, h);
            vstd::arithmetic::div_mod::lemma_mod_add_multiples_vanish(n.bits as int, h);
        }
        assert(m.scale() == n.scale() + 1);
        assert(m.significand() == n.significand());
        lemma_pow2_adds(1, n.scale());
        let (q, w) = (n.significand(), pow2(n.scale()) as int);
        assert(q * (2 * w) == 2 * (q * w)) by (nonlinear_arith);
    }
    let o = Number::of(n.bits + SIGN);
    assert(o.magnitude() == n.magnitude());
}

/// The constants are what they are called: 1 is the unit, 2 twice, and one and a half half as much
/// again.
pub proof fn law_values_of_constants()
    ensures
        Number::of(0).exact() == 0,
        Number::of(ONE as int).exact() == pow2(1074),
        Number::of(TWO as int).exact() == 2 * pow2(1074),
        2 * Number::of(ONE_AND_A_HALF as int).exact() == 3 * pow2(1074),
{
    let one = Number::of(ONE as int);
    lemma2_to64();
    assert(one.scale() == 1022 && one.significand() == HIDDEN);
    lemma_pow2_adds(52, 1022);
    lemma2_to64_rest();
    assert(pow2(52) == HIDDEN);
    assert(HIDDEN * pow2(1022) == pow2(1074));
    let two = Number::of(TWO as int);
    assert(two.scale() == 1023 && two.significand() == HIDDEN);
    lemma_pow2_adds(1, 1022);
    assert(two.exact() == 2 * pow2(1074)) by {
        let w = pow2(1022) as int;
        assert((HIDDEN as int) * (2 * w) == 2 * ((HIDDEN as int) * w)) by (nonlinear_arith);
    }
    let half = Number::of(ONE_AND_A_HALF as int);
    assert(half.scale() == 1022 && 2 * half.significand() == 3 * HIDDEN);
    assert(2 * half.exact() == 3 * pow2(1074)) by {
        let (q, w, h) = (half.significand(), pow2(1022) as int, HIDDEN as int);
        assert(2 * (q * w) == 3 * (h * w)) by (nonlinear_arith)
            requires
                2 * q == 3 * h,
        ;
    }
    crate::number::lemma_size_of_zero(Number::of(0));
}

/// Infinity is above every finite number and its opposite below, and the zeros are equal.
pub proof fn law_order_at_the_ends(n: Number)
    requires
        n.finite(),
    ensures
        n.lt(Number::of(INFINITY as int)),
        Number::of(INFINITY + SIGN).lt(n),
        n.exact() == 0 <==> n.equals(Number::of(0)),
        !n.nan(),
{
    crate::number::law_order_is_by_value(n, Number::of(0));
    crate::number::lemma_size_of_zero(Number::of(0));
}

/// The nearest double is as near as any other, and of two equally near ones it is the even one.
pub proof fn law_nearest_is_nearest(n: Number, o: Number, x: int, m: int)
    requires
        n.nearest_ratio(x, m),
        o.bits <= INFINITY,
    ensures
        n.bits <= INFINITY,
        gap(x, n.size() * m) <= gap(x, o.size() * m),
        gap(x, n.size() * m) == gap(x, o.size() * m) && o != n ==> n.bits % 2 == 0,
{
    assert(n.as_near(o, x, m));
}

/// What is exactly a double is that double.
pub proof fn law_exact_ratio(n: Number, x: int, m: int)
    requires
        m > 0,
        n.bits <= INFINITY,
        n.size() * m == x,
    ensures
        n.nearest_ratio(x, m),
        Number::of_ratio(x, m) == n,
{
    assert forall|o: Number|
        #![trigger o.size()]
        !o.negative() && !o.nan() implies n.as_near(o, x, m) by {
        if o.bits < n.bits {
            crate::number::lemma_size_increases(o, n);
            crate::number::lemma_scaled(o.size(), n.size(), m);
        } else if n.bits < o.bits {
            crate::number::lemma_size_increases(n, o);
            crate::number::lemma_scaled(n.size(), o.size(), m);
        }
    }
    crate::arith::law_of_ratio(n, x, m);
}

/// The number without its sign has the same size.
proof fn lemma_absolute(n: Number)
    requires
        n.finite(),
    ensures
        n.absolute().bits < INFINITY,
        n.absolute().size() == n.size(),
        n.absolute().exact() == n.size(),
        n.size() == (if n.exact() < 0 {
            -n.exact()
        } else {
            n.exact()
        }),
{
    crate::number::lemma_size_of_zero(n);
}

/// A sum is the double nearest to the exact sum, and exactly that where it is a double; a sum of 0 is
/// negative where both numbers are. Infinity swallows what is finite, and opposite infinities and what
/// is not a number have no sum.
pub proof fn law_sum(a: Number, b: Number)
    ensures
        a.finite() && b.finite() ==> forall|n: Number|
            n.finite() && #[trigger] n.exact() == a.exact() + b.exact() ==> a.sum(b).finite() && a.sum(
                b,
            ).exact() == n.exact(),
        a.finite() && b.finite() && a.exact() + b.exact() != 0 ==> forall|n: Number| #[trigger]
            n.nearest(gap(a.exact() + b.exact(), 0)) ==> a.sum(b) == (if a.exact() + b.exact() < 0 {
                Number::of(n.bits + SIGN)
            } else {
                n
            }),
        a.nan() || b.nan() ==> a.sum(b).nan(),
        a.bits == INFINITY && b.bits == INFINITY + SIGN ==> a.sum(b).nan(),
        a.magnitude() == INFINITY && b.finite() ==> a.sum(b) == a,
        a.finite() && b.finite() && a.exact() + b.exact() == 0 ==> (a.sum(b).negative()
            <==> a.negative() && b.negative()),
        a.sum(b) == b.sum(a),
{
    if a.finite() && b.finite() {
        let x = a.exact() + b.exact();
        assert forall|n: Number| n.finite() && #[trigger] n.exact() == x implies a.sum(b).finite()
            && a.sum(b).exact() == n.exact() by {
            let m = n.absolute();
            lemma_absolute(n);
            if x != 0 {
                assert(m.size() * 1 == m.size());
                law_exact_ratio(m, gap(x, 0), 1);
            }
            crate::number::lemma_size_of_zero(Number::of(0));
            crate::number::lemma_size_of_zero(Number::of(SIGN as int));
            let r = a.sum(b);
            assert(r.magnitude() == n.magnitude()) by {
                crate::number::lemma_size_of_zero(n);
            }
            assert(r.size() == n.size());
        }
        assert forall|n: Number| #[trigger] n.nearest(gap(x, 0)) && x != 0 implies a.sum(b) == (
        if x < 0 {
            Number::of(n.bits + SIGN)
        } else {
            n
        }) by {
            crate::arith::law_of_ratio(n, gap(x, 0), 1);
        }
    }
}

/// A difference is the sum with the opposite, which has the opposite value.
pub proof fn law_difference(a: Number, b: Number)
    requires
        a.finite(),
        b.finite(),
    ensures
        b.opposite().exact() == -b.exact(),
        b.opposite().finite(),
        forall|n: Number|
            n.finite() && #[trigger] n.exact() == a.exact() - b.exact() ==> a.difference(
                b,
            ).exact() == n.exact(),
{
    let o = b.opposite();
    assert(o.magnitude() == b.magnitude());
    crate::number::lemma_size_of_zero(b);
    law_sum(a, o);
}

/// A product is exact where it is a double: in units of the product of units.
pub proof fn law_product(a: Number, b: Number, n: Number)
    requires
        a.finite(),
        b.finite(),
        n.finite(),
        n.exact() * pow2(1074) == a.exact() * b.exact(),
    ensures
        a.product(b).finite(),
        a.product(b).exact() == n.exact(),
{
    lemma_pow2_pos(1074);
    let u = pow2(1074) as int;
    lemma_absolute(a);
    lemma_absolute(b);
    lemma_absolute(n);
    let m = n.absolute();
    let (x, y, z) = (a.exact(), b.exact(), n.exact());
    let (p, q, r) = (a.size(), b.size(), m.size());
    assert(p * q == r * u) by (nonlinear_arith)
        requires
            z * u == x * y,
            u > 0,
            p == (if x < 0 { -x } else { x }),
            q == (if y < 0 { -y } else { y }),
            r == (if z < 0 { -z } else { z }),
    ;
    law_exact_ratio(m, p * q, u);
    crate::number::lemma_size_of_zero(a);
    crate::number::lemma_size_of_zero(b);
    crate::number::lemma_size_of_zero(n);
    let s = a.product(b);
    assert(s.magnitude() == m.bits);
    assert(s.size() == m.size());
    if z != 0 {
        assert((z < 0) == ((x < 0) != (y < 0))) by (nonlinear_arith)
            requires
                z * u == x * y,
                u > 0,
                z != 0,
        ;
        assert(x != 0 && y != 0) by (nonlinear_arith)
            requires
                z * u == x * y,
                u > 0,
                z != 0,
        ;
    }
}

/// Products and quotients are the doubles nearest to the exact ones, with the sign of both numbers;
/// infinity stays, and 0 times infinity is not a number.
pub proof fn law_products_and_quotients_are_nearest(a: Number, b: Number, n: Number)
    ensures
        a.finite() && b.finite() && n.nearest_ratio(a.size() * b.size(), pow2(1074) as int)
            ==> a.product(b) == (if a.negative() != b.negative() {
            Number::of(n.bits + SIGN)
        } else {
            n
        }),
        a.finite() && 0 < b.bits < INFINITY && n.nearest_ratio(a.size() * pow2(1074), b.size())
            ==> a.quotient(b) == (if a.negative() {
            Number::of(n.bits + SIGN)
        } else {
            n
        }),
        a.bits == INFINITY && 0 < b.bits <= INFINITY ==> a.product(b) == a,
        a.magnitude() == INFINITY && b.magnitude() == 0 ==> a.product(b).nan(),
        a.nan() ==> a.product(b).nan() && a.quotient(b).nan() && a.root().nan(),
        a.magnitude() == INFINITY && 0 < b.bits < INFINITY ==> a.quotient(b) == a,
        a.negative() && 0 < a.magnitude() ==> a.root().nan(),
        a.bits == INFINITY ==> a.root() == a,
        0 < a.bits < INFINITY && n.nearest_root(a.size() * pow2(1074)) ==> a.root() == n,
{
    lemma_pow2_pos(1074);
    if a.finite() && b.finite() && n.nearest_ratio(a.size() * b.size(), pow2(1074) as int) {
        crate::arith::law_of_ratio(n, a.size() * b.size(), pow2(1074) as int);
    }
    if a.finite() && 0 < b.bits < INFINITY && n.nearest_ratio(a.size() * pow2(1074), b.size()) {
        crate::number::lemma_size_of_zero(b);
        crate::arith::law_of_ratio(n, a.size() * pow2(1074), b.size());
    }
    if 0 < a.bits < INFINITY && n.nearest_root(a.size() * pow2(1074)) {
        crate::arith::law_of_root(n, a.size() * pow2(1074));
    }
}

/// A quotient by a positive number is exact where it is a double.
pub proof fn law_quotient(a: Number, d: Number, n: Number)
    requires
        a.finite(),
        n.finite(),
        0 < d.bits < INFINITY,
        n.exact() * d.exact() == a.exact() * pow2(1074),
    ensures
        a.quotient(d).finite(),
        a.quotient(d).exact() == n.exact(),
{
    lemma_pow2_pos(1074);
    let u = pow2(1074) as int;
    lemma_absolute(a);
    lemma_absolute(n);
    crate::number::lemma_size_of_zero(d);
    let m = n.absolute();
    let (x, z, e) = (a.exact(), n.exact(), d.size());
    let (p, r) = (a.size(), m.size());
    assert(r * e == p * u) by (nonlinear_arith)
        requires
            z * e == x * u,
            e > 0,
            u > 0,
            p == (if x < 0 { -x } else { x }),
            r == (if z < 0 { -z } else { z }),
    ;
    law_exact_ratio(m, p * u, e);
    crate::number::lemma_size_of_zero(a);
    crate::number::lemma_size_of_zero(n);
    let s = a.quotient(d);
    assert(s.magnitude() == m.bits);
    assert(s.size() == m.size());
    if z != 0 {
        assert((z < 0) == (x < 0) && x != 0) by (nonlinear_arith)
            requires
                z * e == x * u,
                e > 0,
                u > 0,
                z != 0,
        ;
    }
}

/// The square root of a square is the number that was squared.
pub proof fn law_root(a: Number, n: Number)
    requires
        a.bits < INFINITY,
        n.bits < INFINITY,
        n.exact() * n.exact() == a.exact() * pow2(1074),
    ensures
        a.root() == n,
{
    lemma_pow2_pos(1074);
    let u = pow2(1074) as int;
    crate::number::lemma_size_of_zero(a);
    crate::number::lemma_size_of_zero(n);
    let x = a.size() * u;
    if a.bits == 0 {
        assert(0 * u == 0);
        let s = n.size();
        assert(s == 0) by (nonlinear_arith)
            requires
                s * s == 0,
        ;
    } else {
        assert forall|o: Number|
            #![trigger o.size()]
            !o.negative() && !o.nan() implies n.root_as_near(o, x) by {
            crate::number::lemma_size_of_zero(o);
            let (s, t) = (n.size(), o.size());
            if n.bits < o.bits {
                crate::number::lemma_size_increases(n, o);
                assert(4 * (s * s) < (s + t) * (s + t)) by (nonlinear_arith)
                    requires
                        0 <= s < t,
                ;
            } else if o.bits < n.bits {
                crate::number::lemma_size_increases(o, n);
                assert(4 * (s * s) > (s + t) * (s + t)) by (nonlinear_arith)
                    requires
                        0 <= t < s,
                ;
            }
        }
        crate::arith::law_of_root(n, x);
    }
}

/// An integer that is a double is that double.
pub proof fn law_integers_are_exact(x: int, n: Number)
    requires
        n.finite(),
        n.exact() == x * pow2(1074),
        n.negative() == (x < 0),
    ensures
        Number::of_integer(x) == n,
{
    lemma_pow2_pos(1074);
    let u = pow2(1074) as int;
    lemma_absolute(n);
    let m = n.absolute();
    let y = (if x < 0 {
        -x
    } else {
        x
    }) * u;
    assert(m.size() == y) by (nonlinear_arith)
        requires
            n.exact() == x * u,
            u > 0,
            m.size() == (if n.exact() < 0 { -n.exact() } else { n.exact() }),
            y == (if x < 0 { -x } else { x }) * u,
    ;
    assert(m.size() * 1 == m.size());
    law_exact_ratio(m, y, 1);
    crate::number::law_of_integer(n, x);
}

/// The exact sum of some numbers.
pub open spec fn exact_total(values: Seq<Number>) -> int
    decreases values.len(),
{
    if values.len() == 0 {
        0
    } else {
        values[0].exact() + exact_total(values.drop_first())
    }
}

/// Whether every sum of the first numbers is exactly a double.
pub open spec fn no_rounding(values: Seq<Number>) -> bool {
    forall|k: int|
        0 <= k <= values.len() ==> exists|n: Number|
            n.finite() && #[trigger] n.exact() == #[trigger] exact_total(values.take(k))
}

proof fn lemma_exact_total(values: Seq<Number>)
    requires
        values.len() > 0,
    ensures
        exact_total(values) == exact_total(values.drop_last()) + values.last().exact(),
    decreases values.len(),
{
    if values.len() > 1 {
        lemma_exact_total(values.drop_first());
        assert(values.drop_first().drop_last() =~= values.drop_last().drop_first());
    } else {
        assert(values.drop_first() =~= Seq::empty());
        assert(values.drop_last() =~= Seq::empty());
    }
}

/// The sum of finite numbers is the exact sum, where nothing is rounded on the way. One more number is
/// added to the sum of those before it.
pub proof fn law_total(values: Seq<Number>)
    ensures
        values.len() == 0 ==> crate::arith::total(values) == Number::of(0),
        values.len() > 0 ==> crate::arith::total(values) == crate::arith::total(
            values.drop_last(),
        ).sum(values.last()),
        no_rounding(values) && (forall|i: int|
            0 <= i < values.len() ==> (#[trigger] values[i]).finite()) ==> crate::arith::total(
            values,
        ).finite() && crate::arith::total(values).exact() == exact_total(values),
    decreases values.len(),
{
    crate::number::lemma_size_of_zero(Number::of(0));
    if values.len() > 0 {
        let before = values.drop_last();
        law_total(before);
        if no_rounding(values) && forall|i: int|
            0 <= i < values.len() ==> (#[trigger] values[i]).finite() {
            assert forall|k: int| 0 <= k <= before.len() implies exists|n: Number|
                n.finite() && #[trigger] n.exact() == #[trigger] exact_total(before.take(k)) by {
                assert(before.take(k) =~= values.take(k));
                let n = choose|n: Number|
                    n.finite() && #[trigger] n.exact() == exact_total(values.take(k));
                assert(n.finite() && n.exact() == exact_total(before.take(k)));
            }
            assert forall|i: int| 0 <= i < before.len() implies (#[trigger] before[i]).finite() by {
                assert(before[i] == values[i]);
            }
            assert(values[values.len() - 1].finite());
            lemma_exact_total(values);
            assert(values.take(values.len() as int) =~= values);
            let n = choose|n: Number|
                n.finite() && #[trigger] n.exact() == exact_total(
                    values.take(values.len() as int),
                );
            law_sum(crate::arith::total(before), values.last());
            assert(n.exact() == crate::arith::total(before).exact() + values.last().exact());
        }
    }
}

/// The mean of finite numbers is their exact sum by how many they are, where nothing is rounded.
pub proof fn law_mean(values: Seq<Number>, count: Number, n: Number)
    requires
        values.len() > 0,
        no_rounding(values),
        forall|i: int| 0 <= i < values.len() ==> (#[trigger] values[i]).finite(),
        count.bits < INFINITY,
        count.exact() == values.len() * pow2(1074),
        n.finite(),
        n.exact() * values.len() == exact_total(values),
    ensures
        crate::arith::mean(values).exact() == n.exact(),
{
    law_total(values);
    lemma_pow2_pos(1074);
    let u = pow2(1074) as int;
    let k = values.len() as int;
    law_integers_are_exact(k, count);
    let t = crate::arith::total(values);
    assert(count.exact() > 0) by (nonlinear_arith)
        requires
            count.exact() == k * u,
            k > 0,
            u > 0,
    ;
    crate::number::lemma_size_of_zero(count);
    let z = n.exact();
    assert(z * (k * u) == (z * k) * u) by (nonlinear_arith);
    law_quotient(t, count, n);
}

/// The mean is the sum by how many the numbers are.
pub proof fn law_mean_is_sum_by_count(values: Seq<Number>)
    ensures
        crate::arith::mean(values) == crate::arith::total(values).quotient(
            Number::of_integer(values.len() as int),
        ),
{
}

/// A count made from a number is the integer nearest to it, the upper one from half-way; there is no
/// count below 0.
pub proof fn law_counts_are_rounded(n: Number)
    ensures
        n.nan() || n.negative() ==> n.to_count() == 0,
        !n.nan() && !n.negative() && n.to_count() < usize::MAX ==> (2 * n.to_count() - 1) * pow2(
            1074,
        ) <= 2 * n.size() < (2 * n.to_count() + 1) * pow2(1074),
{
    lemma_pow2_pos(1074);
    let u = pow2(1074) as int;
    if !n.nan() && !n.negative() && n.to_count() < usize::MAX {
        let x = 2 * n.size() + u;
        crate::number::lemma_size_of_zero(n);
        let q = n.rounded();
        assert(q == x / (2 * u));
        vstd::arithmetic::div_mod::lemma_fundamental_div_mod(x, 2 * u);
        vstd::arithmetic::div_mod::lemma_mod_bound(x, 2 * u);
        vstd::arithmetic::div_mod::lemma_div_pos_is_pos(x, 2 * u);
        assert(n.to_count() == q);
        assert((2 * u) * q == 2 * q * u) by (nonlinear_arith);
        assert((2 * q - 1) * u == 2 * q * u - u) by (nonlinear_arith);
        assert((2 * q + 1) * u == 2 * q * u + u) by (nonlinear_arith);
    }
}

/// The number that decimal digits stand for, each ten times as much as the one behind it.
pub open spec fn positional(s: Seq<char>) -> nat
    decreases s.len(),
{
    if s.len() == 0 {
        0
    } else {
        ((s[0] as nat - '0' as nat) * pow(10, (s.len() - 1) as nat) + positional(s.drop_first()))
            as nat
    }
}

/// Whether a text is made of decimal digits.
pub open spec fn all_digits(s: Seq<char>) -> bool {
    forall|i: int| 0 <= i < s.len() ==> '0' <= #[trigger] s[i] <= '9'
}

/// One more digit: ten times as much, and the digit.
proof fn lemma_positional_push(s: Seq<char>, c: char)
    requires
        all_digits(s),
        '0' <= c <= '9',
    ensures
        positional(s.push(c)) == positional(s) * 10 + (c as nat - '0' as nat),
    decreases s.len(),
{
    let t = s.push(c);
    lemma_pow0(10);
    if s.len() == 0 {
        assert(t.drop_first() =~= Seq::empty());
        assert(positional(t.drop_first()) == 0);
        assert((c as nat - '0' as nat) * 1 == c as nat - '0' as nat);
    } else {
        assert(t.drop_first() =~= s.drop_first().push(c));
        assert forall|i: int| 0 <= i < s.drop_first().len() implies '0' <= #[trigger] s.drop_first()[i]
            <= '9' by {
            assert(s[i + 1] == s.drop_first()[i]);
        }
        lemma_positional_push(s.drop_first(), c);
        lemma_pow_adds(10, 1, (s.len() - 1) as nat);
        lemma_pow1(10);
        lemma_pow_positive(10, (s.len() - 1) as nat);
        let (d, p, r) = (s[0] as int - '0' as int, pow(10, (s.len() - 1) as nat), positional(
            s.drop_first(),
        ) as int);
        assert(d >= 0);
        assert(d * (10 * p) + (r * 10 + (c as int - '0' as int)) == (d * p + r) * 10 + (c as int
            - '0' as int)) by (nonlinear_arith);
        assert(d * p >= 0) by (nonlinear_arith)
            requires
                d >= 0,
                p > 0,
        ;
        assert(d * (10 * p) >= 0) by (nonlinear_arith)
            requires
                d >= 0,
                p > 0,
        ;
    }
}

/// The value of a run of digits is that of the digits by their positions.
pub proof fn law_digits_by_position(s: Seq<char>, a: int, b: int)
    requires
        0 <= a <= b <= s.len(),
        all_digits(s.subrange(a, b)),
    ensures
        crate::decimal::digits_value(s, a, b) == positional(s.subrange(a, b)),
    decreases b - a,
{
    if a < b {
        let t = s.subrange(a, b - 1);
        assert forall|i: int| 0 <= i < t.len() implies '0' <= #[trigger] t[i] <= '9' by {
            assert(s.subrange(a, b)[i] == t[i]);
        }
        law_digits_by_position(s, a, b - 1);
        assert(s.subrange(a, b)[b - 1 - a] == s[b - 1]);
        assert(s.subrange(a, b) =~= t.push(s[b - 1]));
        lemma_positional_push(t, s[b - 1]);
    }
}

/// There is one way to part a decimal number.
proof fn lemma_parted_once(s: Seq<char>, d: int, e: int, d2: int, e2: int)
    requires
        crate::text::decimal_at(s, d, e),
        crate::text::decimal_at(s, d2, e2),
    ensures
        d == d2,
        e == e2,
{
    if d < d2 {
        assert(crate::text::digit(s[d]));
    } else if d2 < d {
        assert(crate::text::digit(s[d2]));
    }
    if e < e2 {
        if e > d {
            assert(crate::text::digit(s[e]));
        }
    } else if e2 < e {
        if e2 > d {
            assert(crate::text::digit(s[e2]));
        }
    }
}

/// What a decimal number stands for: the digits before and behind the point, as one number, times as
/// many tenths as there are digits behind the point, and times ten to the exponent. It is read as the
/// nearest double.
pub proof fn law_decimal_numbers(a: Seq<char>, b: Seq<char>, x: Seq<char>, n: Number)
    requires
        all_digits(a),
        all_digits(b),
        all_digits(x),
        a.len() > 0,
        x.len() > 0,
    ensures
        crate::text::decimal(a),
        b.len() > 0 ==> crate::text::decimal(seq!['.'] + b),
        b.len() > 0 && n.nearest_decimal(positional(b), -(b.len() as int))
            ==> crate::decimal::literal_number(seq!['.'] + b) == n,
        n.nearest_decimal(positional(a), 0) ==> crate::decimal::literal_number(a) == n,
        crate::text::decimal(a + seq!['.'] + b),
        n.nearest_decimal(positional(a + b), -(b.len() as int)) ==> crate::decimal::literal_number(
            a + seq!['.'] + b,
        ) == n,
        crate::text::decimal(a + seq!['e'] + x),
        n.nearest_decimal(positional(a), positional(x) as int) ==> crate::decimal::literal_number(
            a + seq!['e'] + x,
        ) == n,
        n.nearest_decimal(positional(a), positional(x) as int) ==> crate::decimal::literal_number(
            a + seq!['E'] + x,
        ) == n && crate::decimal::literal_number(a + seq!['e', '+'] + x) == n,
        n.nearest_decimal(positional(a), -(positional(x) as int)) ==> crate::decimal::literal_number(
            a + seq!['e', '-'] + x,
        ) == n && crate::decimal::literal_number(a + seq!['E', '-'] + x) == n,
        crate::text::decimal(a + seq!['E'] + x),
        crate::text::decimal(a + seq!['e', '+'] + x),
        crate::text::decimal(a + seq!['e', '-'] + x),
        n.nearest_decimal(positional(a + b), positional(x) - b.len())
            ==> crate::decimal::literal_number(a + seq!['.'] + b + seq!['e'] + x) == n,
{
    lemma_whole(a, n);
    lemma_pointed(a, b, Seq::empty(), n);
    assert(a + seq!['.'] + b + Seq::<char>::empty() =~= a + seq!['.'] + b);
    lemma_scaled_whole(a, seq!['e'], x, n);
    lemma_scaled_whole(a, seq!['E'], x, n);
    lemma_scaled_whole(a, seq!['e', '+'], x, n);
    lemma_scaled_whole(a, seq!['e', '-'], x, n);
    lemma_scaled_whole(a, seq!['E', '-'], x, n);
    if b.len() > 0 {
        lemma_pointed(Seq::empty(), b, Seq::empty(), n);
        assert(Seq::<char>::empty() + seq!['.'] + b + Seq::<char>::empty() =~= seq!['.'] + b);
        assert(Seq::<char>::empty() + b =~= b);
    }
    assert((seq!['e'] + x).skip(1) =~= x);
    lemma_pointed(a, b, seq!['e'] + x, n);
    assert(a + seq!['.'] + b + (seq!['e'] + x) =~= a + seq!['.'] + b + seq!['e'] + x);
}

/// The digits of a text from a place on.
proof fn lemma_run(s: Seq<char>, d: Seq<char>, a: int)
    requires
        0 <= a,
        a + d.len() <= s.len(),
        s.subrange(a, a + d.len()) == d,
        all_digits(d),
    ensures
        crate::text::digits(s, a, a + d.len()),
        crate::decimal::digits_value(s, a, a + d.len()) == positional(d),
{
    assert forall|i: int| a <= i < a + d.len() implies crate::text::digit(#[trigger] s[i]) by {
        assert(s.subrange(a, a + d.len())[i - a] == s[i]);
        assert(d[i - a] == s[i]);
    }
    law_digits_by_position(s, a, a + d.len());
}

proof fn lemma_read(s: Seq<char>, d: int, e: int, m: nat, k: int, n: Number)
    requires
        s.len() > 0,
        s[0] != '-',
        s[0] != '+',
        crate::text::decimal_at(s, d, e),
        crate::decimal::mantissa(s, d, e) == m,
        crate::decimal::exponent(s, e) - crate::decimal::places(d, e) == k,
    ensures
        crate::text::decimal(s),
        n.nearest_decimal(m, k) ==> crate::decimal::literal_number(s) == n,
{
    let (d2, e2) = choose|d2: int, e2: int| crate::text::decimal_at(s, d2, e2);
    lemma_parted_once(s, d, e, d2, e2);
    if n.nearest_decimal(m, k) {
        crate::decimal::law_of_decimal(n, m, k);
    }
}

proof fn lemma_whole(a: Seq<char>, n: Number)
    requires
        all_digits(a),
        a.len() > 0,
    ensures
        crate::text::decimal(a),
        n.nearest_decimal(positional(a), 0) ==> crate::decimal::literal_number(a) == n,
{
    let k = a.len() as int;
    assert(a.subrange(0, k) =~= a);
    lemma_run(a, a, 0);
    lemma_pow0(10);
    assert(crate::text::digit(a[0]));
    assert(crate::decimal::digits_value(a, k + 1, k) == 0);
    assert(positional(a) * 1 == positional(a));
    lemma_read(a, k, k, positional(a), 0, n);
}

proof fn lemma_scaled_whole(a: Seq<char>, mark: Seq<char>, x: Seq<char>, n: Number)
    requires
        all_digits(a),
        all_digits(x),
        a.len() > 0,
        x.len() > 0,
        mark.len() == 1 || (mark.len() == 2 && (mark[1] == '-' || mark[1] == '+')),
        mark[0] == 'e' || mark[0] == 'E',
    ensures
        crate::text::decimal(a + mark + x),
        n.nearest_decimal(
            positional(a),
            if mark.len() == 2 && mark[1] == '-' {
                -(positional(x) as int)
            } else {
                positional(x) as int
            },
        ) ==> crate::decimal::literal_number(a + mark + x) == n,
{
    let s = a + mark + x;
    let k = a.len() as int;
    let f = k + mark.len();
    assert(s.subrange(0, k) =~= a);
    assert(s.subrange(f, f + x.len()) =~= x);
    lemma_run(s, a, 0);
    lemma_run(s, x, f);
    lemma_pow0(10);
    assert(crate::text::digit(s[0]));
    assert(s[k] == mark[0]);
    assert(s[f] == x[0]);
    assert('0' <= x[0] <= '9');
    if mark.len() == 2 {
        assert(s[k + 1] == mark[1]);
    }
    assert(crate::decimal::digits_value(s, k + 1, k) == 0);
    assert(positional(a) * 1 == positional(a));
    let z = if mark.len() == 2 && mark[1] == '-' {
        -(positional(x) as int)
    } else {
        positional(x) as int
    };
    lemma_read(s, k, k, positional(a), z, n);
}

proof fn lemma_pointed(a: Seq<char>, b: Seq<char>, scale: Seq<char>, n: Number)
    requires
        all_digits(a),
        all_digits(b),
        a.len() > 0 || b.len() > 0,
        scale.len() == 0 || (scale.len() >= 2 && scale[0] == 'e' && all_digits(scale.skip(1))),
    ensures
        crate::text::decimal(a + seq!['.'] + b + scale),
        n.nearest_decimal(
            positional(a + b),
            (if scale.len() == 0 {
                0
            } else {
                positional(scale.skip(1)) as int
            }) - b.len(),
        ) ==> crate::decimal::literal_number(a + seq!['.'] + b + scale) == n,
{
    let s = a + seq!['.'] + b + scale;
    let d = a.len() as int;
    let e = d + 1 + b.len();
    assert(s.subrange(0, d) =~= a);
    assert(s.subrange(d + 1, e) =~= b);
    lemma_run(s, a, 0);
    lemma_run(s, b, d + 1);
    if d > 0 {
        assert(crate::text::digit(s[0]));
    }
    assert(s[d] == '.');
    if scale.len() > 0 {
        let x = scale.skip(1);
        assert(s.subrange(e + 1, e + 1 + x.len()) =~= x);
        lemma_run(s, x, e + 1);
        assert(s[e] == scale[0]);
        assert(s[e + 1] == x[0]);
        assert('0' <= x[0] <= '9');
    }
    lemma_joined(a, b);
    lemma_read(
        s,
        d,
        e,
        positional(a + b),
        (if scale.len() == 0 {
            0
        } else {
            positional(scale.skip(1)) as int
        }) - b.len(),
        n,
    );
}

/// Digits behind others put them up by their number of places.
proof fn lemma_joined(a: Seq<char>, b: Seq<char>)
    requires
        all_digits(a),
        all_digits(b),
    ensures
        positional(a + b) == positional(a) * pow(10, b.len()) + positional(b),
    decreases b.len(),
{
    lemma_pow0(10);
    if b.len() == 0 {
        assert(a + b =~= a);
        assert(positional(a) * 1 == positional(a));
    } else {
        let c = b.drop_last();
        assert forall|i: int| 0 <= i < c.len() implies '0' <= #[trigger] c[i] <= '9' by {
            assert(b[i] == c[i]);
        }
        assert('0' <= b[b.len() - 1] <= '9');
        assert(all_digits(a + c)) by {
            assert forall|i: int| 0 <= i < (a + c).len() implies '0' <= #[trigger] (a + c)[i]
                <= '9' by {
                if i < a.len() {
                    assert(a[i] == (a + c)[i]);
                } else {
                    assert(c[i - a.len()] == (a + c)[i]);
                }
            }
        }
        lemma_joined(a, c);
        assert(a + b =~= (a + c).push(b.last()));
        assert(b =~= c.push(b.last()));
        lemma_positional_push(a + c, b.last());
        lemma_positional_push(c, b.last());
        lemma_pow_adds(10, 1, c.len());
        lemma_pow1(10);
        let (x, p, y) = (positional(a) as int, pow(10, c.len()), positional(c) as int);
        assert((x * p + y) * 10 == x * (10 * p) + y * 10) by (nonlinear_arith);
    }
}

/// A minus sign makes the opposite of a number, and a plus sign makes no difference.
pub proof fn law_signs(s: Seq<char>)
    requires
        s.len() > 0,
        s[0] != '-',
        s[0] != '+',
    ensures
        crate::text::unsigned(seq!['-'] + s) == s,
        crate::text::unsigned(seq!['+'] + s) == s,
        crate::text::unsigned(s) == s,
        crate::decimal::literal_number(seq!['-'] + s) == Number::of(
            crate::decimal::literal_number(s).bits + SIGN,
        ),
        crate::decimal::literal_number(seq!['+'] + s) == crate::decimal::literal_number(s),
{
    assert((seq!['-'] + s).drop_first() =~= s);
    assert((seq!['+'] + s).drop_first() =~= s);
    assert((seq!['-'] + s)[0] == '-');
    assert((seq!['+'] + s)[0] == '+');
}

/// The words for infinity and for what is not a number stand for it, in any letter case.
pub proof fn law_number_words(s: Seq<char>)
    requires
        crate::text::number_word(s),
    ensures
        s.len() == 3 || s.len() == 8,
        s[0] == 'i' || s[0] == 'I' ==> crate::decimal::literal_number(s).bits == INFINITY,
        s[0] == 'n' || s[0] == 'N' ==> crate::decimal::literal_number(s).nan(),
        s[0] == 'i' || s[0] == 'I' || s[0] == 'n' || s[0] == 'N',
{
    let w = s.map_values(|c: char| crate::text::ascii_lower(c));
    assert(w.len() == s.len());
    assert(w[0] == crate::text::ascii_lower(s[0]));
    if crate::text::decimal(s) {
        let (d, e) = choose|d: int, e: int| crate::text::decimal_at(s, d, e);
        if d > 0 {
            assert(crate::text::digit(s[0]));
        }
    }
}

/// A decimal number has at least one digit, and nothing in it but digits, one point, and the letter and
/// the sign of an exponent. It begins with a digit or with the point.
pub proof fn law_form_of_decimals(s: Seq<char>)
    requires
        crate::text::decimal(s),
    ensures
        s.len() > 0,
        '0' <= s[0] <= '9' || s[0] == '.',
        exists|i: int| 0 <= i < s.len() && '0' <= #[trigger] s[i] <= '9',
        forall|i: int|
            0 <= i < s.len() ==> {
                ||| '0' <= #[trigger] s[i] <= '9'
                ||| s[i] == '.'
                ||| s[i] == 'e' || s[i] == 'E'
                ||| (s[i] == '+' || s[i] == '-') && i > 0 && (s[i - 1] == 'e' || s[i - 1] == 'E')
            },
        forall|i: int, j: int|
            0 <= i < j < s.len() && #[trigger] s[i] == '.' ==> #[trigger] s[j] != '.',
        forall|i: int, j: int|
            0 <= i < j < s.len() && (#[trigger] s[i] == 'e' || s[i] == 'E') ==> #[trigger] s[j] != '.'
                && s[j] != 'e' && s[j] != 'E',
{
    let (d, e) = choose|d: int, e: int| crate::text::decimal_at(s, d, e);
    let f = if e + 1 < s.len() && crate::text::sign(s[e + 1]) {
        e + 2
    } else {
        e + 1
    };
    assert forall|i: int| 0 <= i < s.len() implies (i < d ==> '0' <= #[trigger] s[i] <= '9') && (d
        < i < e ==> '0' <= s[i] <= '9') && (f <= i ==> '0' <= s[i] <= '9') by {
        if i < d {
            assert(crate::text::digit(s[i]));
        } else if d < i < e {
            assert(crate::text::digit(s[i]));
        } else if f <= i {
            assert(crate::text::digit(s[i]));
        }
    }
    if d > 0 {
        assert('0' <= s[0] <= '9');
    } else {
        assert('0' <= s[1] <= '9');
    }
}

/// The number words are `inf`, `infinity` and `nan`, in any letter case.
pub proof fn law_which_words_are_numbers(s: Seq<char>)
    requires
        vstd::utf8::is_ascii_chars(s),
    ensures
        crate::text::number_word(s) <==> crate::text::same_text(s, seq!['i', 'n', 'f'])
            || crate::text::same_text(s, seq!['n', 'a', 'n']) || crate::text::same_text(
            s,
            seq!['i', 'n', 'f', 'i', 'n', 'i', 't', 'y'],
        ),
        crate::text::number_literal(s) <==> crate::text::decimal(crate::text::unsigned(s))
            || crate::text::number_word(crate::text::unsigned(s)),
{
    let (a, b, c) = (
        seq!['i', 'n', 'f'],
        seq!['n', 'a', 'n'],
        seq!['i', 'n', 'f', 'i', 'n', 'i', 't', 'y'],
    );
    assert(crate::text::lowercase(a) =~= a);
    assert(crate::text::lowercase(b) =~= b);
    assert(crate::text::lowercase(c) =~= c);
}

}
