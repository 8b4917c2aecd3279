//! Sums and means of numbers, rounded at each step as doubles are.
use vstd::prelude::*;
use vstd::arithmetic::power2::*;
use crate::big::{Big, Comparison};
use crate::number::{round_ratio, round_scaled, Number, HIDDEN, INFINITY, SIGN};

verus! {

/// The bits of what is not a number.
pub const NOT_A_NUMBER: u64 = 0x7ff8_0000_0000_0000;

/// The bits of 2.
pub const TWO: u64 = 0x4000_0000_0000_0000;

/// The bits of one and a half.
pub const ONE_AND_A_HALF: u64 = 0x3ff8_0000_0000_0000;

impl Number {
    /// The non-negative double nearest to `x` / `m` units.
    pub open spec fn of_ratio(x: int, m: int) -> Number {
        choose|n: Number| n.nearest_ratio(x, m)
    }

    /// A non-negative double, or its opposite.
    pub open spec fn signed(self, negative: bool) -> Number {
        if negative {
            Number::of(self.bits + SIGN)
        } else {
            self
        }
    }

    /// The sum of two doubles: the double nearest to the exact sum. A sum of 0 is negative where both
    /// are. Opposite infinities have none.
    pub open spec fn sum(self, other: Number) -> Number {
        let x = self.exact() + other.exact();
        if self.nan() || other.nan() || (!self.finite() && !other.finite() && self != other) {
            Number::of(NOT_A_NUMBER as int)
        } else if !self.finite() {
            self
        } else if !other.finite() {
            other
        } else if x == 0 {
            Number::of(0).signed(self.negative() && other.negative())
        } else if x < 0 {
            Number::of_ratio(-x, 1).signed(true)
        } else {
            Number::of_ratio(x, 1)
        }
    }

    /// The quotient of a double and a finite positive one: the double nearest to the exact quotient.
    pub open spec fn quotient(self, divisor: Number) -> Number {
        if self.nan() {
            Number::of(NOT_A_NUMBER as int)
        } else if !self.finite() {
            self
        } else {
            Number::of_ratio(self.size() * pow2(1074), divisor.size()).signed(self.negative())
        }
    }
}

impl Number {
    /// The number with the other sign.
    pub open spec fn opposite(self) -> Number {
        if self.negative() {
            Number::of(self.bits - SIGN)
        } else {
            Number::of(self.bits + SIGN)
        }
    }

    /// The difference of two doubles.
    pub open spec fn difference(self, other: Number) -> Number {
        self.sum(other.opposite())
    }

    /// The product of two doubles: the double nearest to the exact product. 0 and infinity have none.
    pub open spec fn product(self, other: Number) -> Number {
        let negative = self.negative() != other.negative();
        if self.nan() || other.nan() || (!self.finite() && other.magnitude() == 0) || (
        self.magnitude() == 0 && !other.finite()) {
            Number::of(NOT_A_NUMBER as int)
        } else if !self.finite() || !other.finite() {
            Number::of(INFINITY as int).signed(negative)
        } else {
            Number::of_ratio(self.size() * other.size(), pow2(1074) as int).signed(negative)
        }
    }

    /// Whether `self` is the double nearest to the square root of `x`, in units, with the even one
    /// of two that are equally near: the root is less than half-way to every greater double, and
    /// more than half-way from every lesser one.
    pub open spec fn nearest_root(self, x: int) -> bool {
        &&& !self.negative()
        &&& !self.nan()
        &&& forall|o: Number|
            #![trigger o.size()]
            !o.negative() && !o.nan() ==> self.root_as_near(o, x)
    }

    /// Whether the square root of `x`, in units, is nearer to `self` than to another double, or as
    /// near and `self` is that one, or even.
    pub open spec fn root_as_near(self, o: Number, x: int) -> bool {
        let twice = self.size() + o.size();
        &&& self.bits < o.bits ==> 4 * x < twice * twice || (4 * x == twice * twice && self.bits % 2
            == 0)
        &&& self.bits > o.bits ==> 4 * x > twice * twice || (4 * x == twice * twice && self.bits % 2
            == 0)
    }

    /// The double nearest to the square root of `x`, in units.
    pub open spec fn of_root(x: int) -> Number {
        choose|n: Number| n.nearest_root(x)
    }

    /// The square root of a double.
    pub open spec fn root(self) -> Number {
        if self.nan() || (self.negative() && self.magnitude() > 0) {
            Number::of(NOT_A_NUMBER as int)
        } else if self.magnitude() == 0 || !self.finite() {
            self
        } else {
            Number::of_root(self.size() * pow2(1074))
        }
    }

    /// The integer nearest to a finite number that is not negative, the upper one from half-way.
    pub open spec fn rounded(self) -> int {
        (2 * self.size() + pow2(1074)) / (2 * pow2(1074) as int)
    }

    /// The count nearest to a number: the greatest there is for what is beyond it, 0 for what is
    /// negative or not a number.
    pub open spec fn to_count(self) -> usize {
        if self.nan() || self.negative() {
            0
        } else if !self.finite() || self.rounded() > usize::MAX {
            usize::MAX
        } else {
            self.rounded() as usize
        }
    }
}

/// The sum of some numbers, added up in order.
pub open spec fn total(values: Seq<Number>) -> Number
    decreases values.len(),
{
    if values.len() == 0 {
        Number::of(0)
    } else {
        total(values.drop_last()).sum(values.last())
    }
}

/// The mean of some numbers: their sum by how many they are.
pub open spec fn mean(values: Seq<Number>) -> Number {
    total(values).quotient(Number::of_integer(values.len() as int))
}

/// There is one double nearest to a ratio.
pub proof fn law_of_ratio(n: Number, x: int, m: int)
    requires
        m > 0,
        n.nearest_ratio(x, m),
    ensures
        n == Number::of_ratio(x, m),
{
    let o = Number::of_ratio(x, m);
    assert(o.nearest_ratio(x, m));
    crate::number::lemma_ratio_unique(n, o, x, m);
    crate::number::lemma_ratio_unique(o, n, x, m);
}

/// A sum does not depend on which number comes first, unless one is not a number.
pub proof fn law_sum_commutes(a: Number, b: Number)
    ensures
        a.sum(b) == b.sum(a),
{
}

/// Adding 0 changes no number but the negative 0.
pub proof fn law_adding_nothing(a: Number)
    requires
        !a.nan(),
        a != Number::of(SIGN as int),
    ensures
        a.sum(Number::of(0)) == a,
{
    let zero = Number::of(0);
    crate::number::lemma_size_of_zero(zero);
    crate::number::lemma_size_of_zero(a);
    if a.finite() && a.magnitude() > 0 {
        let n = a.absolute();
        lemma_is_nearest(n);
        law_of_ratio(n, n.size(), 1);
        assert(n.size() == a.size());
    }
}

/// A double is the nearest one to itself.
proof fn lemma_is_nearest(n: Number)
    requires
        n.bits <= INFINITY,
    ensures
        n.nearest_ratio(n.size(), 1),
{
    crate::number::lemma_neighbours(n);
    crate::number::lemma_size_of_zero(n);
    crate::number::lemma_nearest_ratio(n, n.size(), 1);
}

/// A number so much greater than another stays itself when the other is added or taken away.
proof fn lemma_dominates(a: Number, b: Number, x: int)
    requires
        a.finite(),
        b.finite(),
        a.scale() >= b.scale() + 64,
        x == a.size() + b.size() || x == a.size() - b.size(),
    ensures
        x > 0,
        a.absolute().nearest_ratio(x, 1),
{
    let n = a.absolute();
    let below = Number::of(n.bits - 1);
    let above = Number::of(n.bits + 1);
    crate::number::lemma_size_of_zero(b);
    crate::number::lemma_size_of_zero(a);
    assert(n.size() == a.size() && n.scale() == a.scale());
    let (sa, sb) = (a.scale(), b.scale());
    let p = pow2(sb) as int;
    // The other is less than a part in a thousand of the distance to the next double.
    lemma_pow2_adds(10, (sa - 10) as nat);
    lemma_pow2_adds(54, sb);
    lemma2_to64();
    lemma2_to64_rest();
    if (sa - 10) as nat > 54 + sb {
        lemma_pow2_strictly_increases((54 + sb) as nat, (sa - 10) as nat);
    }
    lemma_pow2_pos((sa - 10) as nat);
    let (w, e) = (pow2(sa) as int, pow2((sa - 10) as nat) as int);
    assert(b.size() <= e) by (nonlinear_arith)
        requires
            b.size() == b.significand() * p,
            0 <= b.significand() < 2 * HIDDEN,
            p > 0,
            0x40_0000_0000_0000 * p <= e,
    ;
    assert(a.magnitude() >= HIDDEN);
    assert(a.size() >= w) by (nonlinear_arith)
        requires
            a.size() == a.significand() * w,
            a.significand() >= HIDDEN,
            w > 0,
    ;
    crate::number::lemma_next(n);
    crate::number::lemma_next(below);
    assert(pow2(below.scale()) >= pow2((sa - 1) as nat)) by {
        lemma_scale_below(n);
        if below.scale() > sa - 1 {
            lemma_pow2_strictly_increases((sa - 1) as nat, below.scale());
        }
    }
    lemma_pow2_unfold(sa);
    assert(n.size() * 1 == n.size() && above.size() * 1 == above.size() && below.size() * 1
        == below.size());
    crate::number::lemma_nearest_ratio(n, x, 1);
}

/// The scale of the double before is at most one less.
proof fn lemma_scale_below(n: Number)
    requires
        !n.negative(),
        n.bits > HIDDEN,
    ensures
        Number::of(n.bits - 1).scale() + 1 >= n.scale(),
{
    let h = HIDDEN as int;
    let b = n.bits as int;
    assert((b - 1) / h + 1 >= b / h) by (nonlinear_arith)
        requires
            h > 0,
    ;
}

/// The sum of two finite numbers, the first of at least the scale of the other.
fn add_ordered(a: Number, b: Number) -> (r: Number)
    requires
        a.finite(),
        b.finite(),
        a.scale() >= b.scale(),
    ensures
        r == a.sum(b),
{
    let (qa, sa) = a.parts();
    let (qb, sb) = b.parts();
    let ghost x = a.exact() + b.exact();
    if sa - sb >= 64 {
        proof {
            crate::number::lemma_size_of_zero(b);
            let y = if x < 0 {
                -x
            } else {
                x
            };
            if a.negative() {
                lemma_dominates(a, b, -x);
            } else {
                lemma_dominates(a, b, x);
            }
            law_of_ratio(a.absolute(), y, 1);
        }
        return a;
    }
    let factor: u64 = 1u64 << ((sa - sb) as u64);
    proof {
        lemma2_to64();
        lemma2_to64_rest();
        if sa - sb < 63 {
            lemma_pow2_strictly_increases((sa - sb) as nat, 63);
        }
        vstd::bits::lemma_u64_shl_is_mul(1, (sa - sb) as u64);
        assert(qa * factor <= 0x20_0000_0000_0000 * 0x8000_0000_0000_0000) by (nonlinear_arith)
            requires
                0 <= qa <= 0x20_0000_0000_0000,
                0 <= factor <= 0x8000_0000_0000_0000,
        ;
        assert(qa * factor >= 0) by (nonlinear_arith)
            requires
                0 <= qa,
                0 <= factor,
        ;
    }
    let ma: i128 = (qa as i128) * (factor as i128);
    let mb: i128 = qb as i128;
    let s: i128 = (if a.bits >= SIGN {
        -ma
    } else {
        ma
    }) + (if b.bits >= SIGN {
        -mb
    } else {
        mb
    });
    let ghost p = pow2(sb as nat) as int;
    proof {
        lemma_pow2_adds((sa - sb) as nat, sb as nat);
        lemma_pow2_pos(sb as nat);
        let (q, f) = (qa as int, factor as int);
        assert(q * (f * p) == (q * f) * p) by (nonlinear_arith);
        let (u, v) = (
            if a.negative() {
                -(ma as int)
            } else {
                ma as int
            },
            if b.negative() {
                -(mb as int)
            } else {
                mb as int
            },
        );
        let (m1, m2) = (ma as int, mb as int);
        assert((-m1) * p == -(m1 * p) && (-m2) * p == -(m2 * p)) by (nonlinear_arith);
        assert(u * p + v * p == (u + v) * p) by (nonlinear_arith);
        assert(x == s * p);
        assert((s < 0 <==> x < 0) && (s == 0 <==> x == 0)) by (nonlinear_arith)
            requires
                x == s * p,
                p > 0,
        ;
        assert((-s) * p == -(s * p)) by (nonlinear_arith);
    }
    if s == 0 {
        if a.bits >= SIGN && b.bits >= SIGN {
            Number { bits: SIGN }
        } else {
            Number { bits: 0 }
        }
    } else if s < 0 {
        let n = round_scaled((-s) as u128, sb);
        proof {
            law_of_ratio(n, -x, 1);
        }
        Number { bits: n.bits + SIGN }
    } else {
        let n = round_scaled(s as u128, sb);
        proof {
            law_of_ratio(n, x, 1);
        }
        n
    }
}

impl Number {
    /// The sum of two doubles.
    pub fn plus(self, other: Number) -> (r: Number)
        ensures
            r == self.sum(other),
    {
        if self.is_nan() || other.is_nan() {
            return Number { bits: NOT_A_NUMBER };
        }
        let a = self.magnitude_bits();
        let b = other.magnitude_bits();
        if a == INFINITY {
            if b == INFINITY && self.bits != other.bits {
                return Number { bits: NOT_A_NUMBER };
            }
            return self;
        }
        if b == INFINITY {
            return other;
        }
        if self.parts().1 >= other.parts().1 {
            add_ordered(self, other)
        } else {
            add_ordered(other, self)
        }
    }

    /// The quotient of a double and a finite positive one.
    pub fn over(self, divisor: Number) -> (r: Number)
        requires
            divisor.finite(),
            !divisor.negative(),
            divisor.bits > 0,
        ensures
            r == self.quotient(divisor),
    {
        if self.is_nan() {
            return Number { bits: NOT_A_NUMBER };
        }
        if self.magnitude_bits() == INFINITY {
            return self;
        }
        let (qa, sa) = self.parts();
        let (qb, sb) = divisor.parts();
        let x = Big::of(qa).shifted(sa).shifted(1074);
        let m = Big::of(qb).shifted(sb);
        proof {
            crate::number::lemma_size_of_zero(divisor);
        }
        let n = round_ratio(&x, &m);
        proof {
            law_of_ratio(n, x.value(), m.value());
        }
        if self.bits >= SIGN {
            Number { bits: n.bits + SIGN }
        } else {
            n
        }
    }

    /// The double nearest to a count.
    pub fn from_count(n: usize) -> (r: Number)
        ensures
            r == Number::of_integer(n as int),
            r.finite(),
            !r.negative(),
            n > 0 ==> r.bits > 0,
    {
        let r = round_scaled(n as u128, 1074);
        proof {
            let x = n * pow2(1074);
            assert(r.absolute() == r);
            crate::number::law_of_integer(r, n as int);
            lemma_pow2_pos(1074);
            lemma2_to64();
            lemma_pow2_adds(32, 32);
            lemma_pow2_adds(64, 1074);
            lemma_pow2_strictly_increases(1138, 2097);
            let u = pow2(1074) as int;
            assert(0 <= x <= 0x1_0000_0000_0000_0000 * u) by (nonlinear_arith)
                requires
                    x == n * u,
                    0 <= n <= 0x1_0000_0000_0000_0000,
                    u > 0,
            ;
            assert(n > 0 ==> x > 0) by (nonlinear_arith)
                requires
                    x == n * u,
                    u > 0,
            ;
            lemma_moderate(r, x);
        }
        r
    }
}

/// What is not too large rounds to a finite number, and what is not 0 does not round to 0.
proof fn lemma_moderate(r: Number, x: int)
    requires
        r.nearest(x),
        0 <= x <= pow2(2097),
    ensures
        r.finite(),
        x > 0 ==> r.bits > 0,
{
    let top = Number::of(INFINITY as int);
    let last = Number::of(INFINITY - 1);
    let one = Number::of(1);
    let zero = Number::of(0);
    crate::number::lemma_size_increases(last, top);
    crate::number::lemma_size_increases(zero, one);
    crate::number::lemma_size_of_zero(zero);
    lemma2_to64();
    lemma2_to64_rest();
    assert(one.significand() == 1 && one.scale() == 0);
    assert(pow2(0) == 1);
    assert(one.size() == 1 * pow2(0));
    assert(last.significand() == 2 * HIDDEN - 1 && last.scale() == 2045);
    lemma_pow2_adds(52, 2045);
    let w = pow2(2045) as int;
    lemma_pow2_pos(2045);
    assert(last.size() >= HIDDEN * w) by (nonlinear_arith)
        requires
            last.size() == (2 * HIDDEN - 1) * w,
            w > 0,
    ;
    assert(top.size() * 1 == top.size() && last.size() * 1 == last.size() && one.size() * 1
        == one.size() && zero.size() * 1 == zero.size());
    if r.bits == INFINITY {
        assert(r.as_near(last, x, 1));
    }
    if x > 0 && r.bits == 0 {
        assert(r == zero);
        assert(r.as_near(one, x, 1));
    }
}

/// The sum of some numbers, added up in order.
pub fn sum_of(values: &Vec<Number>) -> (r: Number)
    ensures
        r == total(values@),
{
    let mut r = Number { bits: 0 };
    let mut i: usize = 0;
    while i < values.len()
        invariant
            i <= values@.len(),
            r == total(values@.take(i as int)),
        decreases values@.len() - i,
    {
        assert(values@.take(i + 1).drop_last() =~= values@.take(i as int));
        r = r.plus(values[i]);
        i = i + 1;
    }
    assert(values@.take(i as int) =~= values@);
    r
}

/// The mean of at least one number.
pub fn mean_of(values: &Vec<Number>) -> (r: Number)
    requires
        values@.len() > 0,
    ensures
        r == mean(values@),
{
    sum_of(values).over(Number::from_count(values.len()))
}

/// A ratio stays the same when both its parts are multiplied.
proof fn lemma_same_ratio(n: Number, x: int, m: int, c: int)
    requires
        n.nearest_ratio(x, m),
        c > 0,
    ensures
        n.nearest_ratio(x * c, m * c),
{
    assert forall|o: Number|
        #![trigger o.size()]
        !o.negative() && !o.nan() implies n.as_near(o, x * c, m * c) by {
        assert(n.as_near(o, x, m));
        lemma_multiplied(x, n.size() * m, c);
        lemma_multiplied(x, o.size() * m, c);
        let (a, b) = (n.size(), o.size());
        assert(a * (m * c) == (a * m) * c && b * (m * c) == (b * m) * c) by (nonlinear_arith);
        let mine = if x < a * m {
            a * m - x
        } else {
            x - a * m
        };
        let theirs = if x < b * m {
            b * m - x
        } else {
            x - b * m
        };
        assert((mine < theirs ==> mine * c < theirs * c) && (mine == theirs ==> mine * c == theirs
            * c)) by (nonlinear_arith)
            requires
                c > 0,
        ;
    }
}

/// Products with a positive factor are ordered as the other factors, and so are their differences.
proof fn lemma_multiplied(x: int, y: int, c: int)
    requires
        c > 0,
    ensures
        x < y <==> x * c < y * c,
        (y - x) * c == y * c - x * c,
        (x - y) * c == x * c - y * c,
{
    assert(x < y <==> x * c < y * c) by (nonlinear_arith)
        requires
            c > 0,
    ;
    assert((y - x) * c == y * c - x * c && (x - y) * c == x * c - y * c) by (nonlinear_arith);
}

/// The double nearest to the product of two sizes.
fn multiply_sizes(a: Number, b: Number) -> (r: Number)
    requires
        a.finite(),
        b.finite(),
    ensures
        r.nearest_ratio(a.size() * b.size(), pow2(1074) as int),
{
    let (qa, sa) = a.parts();
    let (qb, sb) = b.parts();
    let t: u32 = sa + sb;
    let ghost (u, pa, pb) = (pow2(1074) as int, pow2(sa as nat) as int, pow2(sb as nat) as int);
    let ghost x = a.size() * b.size();
    proof {
        lemma_pow2_adds(sa as nat, sb as nat);
        lemma_pow2_pos(1074);
        let (m, n) = (qa as int, qb as int);
        assert((m * pa) * (n * pb) == (m * n) * (pa * pb)) by (nonlinear_arith);
        assert(0 <= m * n < 0x40_0000_0000_0000 * 0x40_0000_0000_0000) by (nonlinear_arith)
            requires
                0 <= m < 0x40_0000_0000_0000,
                0 <= n < 0x40_0000_0000_0000,
        ;
    }
    if t >= 1074 && t <= 3119 {
        let m: u128 = (qa as u128) * (qb as u128);
        let r = round_scaled(m, t - 1074);
        proof {
            lemma_pow2_adds((t - 1074) as nat, 1074);
            let (y, w) = (m as int, pow2((t - 1074) as nat) as int);
            assert(y * (w * u) == (y * w) * u) by (nonlinear_arith);
            lemma_same_ratio(r, y * w, 1, u);
        }
        r
    } else {
        let product = Big::of(qa).times_plus(qb, 0).shifted(t);
        let unit = Big::of(1).shifted(1074);
        round_ratio(&product, &unit)
    }
}

impl Number {
    /// The number with the other sign.
    pub fn negated(self) -> (r: Number)
        ensures
            r == self.opposite(),
    {
        if self.bits >= SIGN {
            Number { bits: self.bits - SIGN }
        } else {
            Number { bits: self.bits + SIGN }
        }
    }

    /// The difference of two doubles.
    pub fn minus(self, other: Number) -> (r: Number)
        ensures
            r == self.difference(other),
    {
        self.plus(other.negated())
    }

    /// The product of two doubles.
    pub fn times(self, other: Number) -> (r: Number)
        ensures
            r == self.product(other),
    {
        let a = self.magnitude_bits();
        let b = other.magnitude_bits();
        if a > INFINITY || b > INFINITY || (a == INFINITY && b == 0) || (a == 0 && b == INFINITY) {
            return Number { bits: NOT_A_NUMBER };
        }
        let negative = (self.bits >= SIGN) != (other.bits >= SIGN);
        let n = if a == INFINITY || b == INFINITY {
            Number { bits: INFINITY }
        } else {
            let n = multiply_sizes(self, other);
            proof {
                lemma_pow2_pos(1074);
                law_of_ratio(n, self.size() * other.size(), pow2(1074) as int);
            }
            n
        };
        if negative {
            Number { bits: n.bits + SIGN }
        } else {
            n
        }
    }
}

/// Squares grow.
proof fn lemma_square(a: int, b: int)
    requires
        0 <= a < b,
    ensures
        a * a < b * b,
{
    assert(a * a < b * b) by (nonlinear_arith)
        requires
            0 <= a < b,
    ;
}

/// A double is the nearest one to all roots that lie between the half-way points to its neighbours.
proof fn lemma_nearest_root(n: Number, x: int)
    requires
        n.bits <= INFINITY,
        n.bits < INFINITY ==> n.root_as_near(Number::of(n.bits + 1), x),
        n.bits > 0 ==> n.root_as_near(Number::of(n.bits - 1), x),
    ensures
        n.nearest_root(x),
{
    let above = Number::of(n.bits + 1);
    let below = Number::of(n.bits - 1);
    crate::number::lemma_size_of_zero(n);
    assert forall|o: Number|
        #![trigger o.size()]
        !o.negative() && !o.nan() implies n.root_as_near(o, x) by {
        crate::number::lemma_size_of_zero(o);
        if above.bits < o.bits {
            crate::number::lemma_size_of_zero(above);
            crate::number::lemma_size_increases(above, o);
            lemma_square(n.size() + above.size(), n.size() + o.size());
        } else if n.bits > 0 && o.bits < below.bits {
            crate::number::lemma_size_of_zero(below);
            crate::number::lemma_size_increases(o, below);
            lemma_square(n.size() + o.size(), n.size() + below.size());
        }
    }
}

/// There is one double nearest to a root.
pub proof fn law_of_root(n: Number, x: int)
    requires
        n.nearest_root(x),
    ensures
        n == Number::of_root(x),
{
    let o = Number::of_root(x);
    assert(o.nearest_root(x));
    lemma_root_unique(n, o, x);
    lemma_root_unique(o, n, x);
}

proof fn lemma_root_unique(a: Number, b: Number, x: int)
    requires
        a.nearest_root(x),
        b.nearest_root(x),
    ensures
        a.bits >= b.bits,
{
    if a.bits < b.bits {
        let c = Number::of(a.bits + 1);
        assert(a.root_as_near(b, x));
        assert(b.root_as_near(a, x));
        assert(a.bits % 2 == 0 && b.bits % 2 == 0);
        crate::number::lemma_size_of_zero(a);
        crate::number::lemma_size_of_zero(c);
        crate::number::lemma_size_increases(c, b);
        lemma_square(a.size() + c.size(), a.size() + b.size());
        assert(a.root_as_near(c, x));
    }
}

/// The square of a number of units of a scale.
fn squared_size(q: u64, s: u32) -> (r: Big)
    requires
        s <= 2046,
    ensures
        r.value() == (q * pow2(s as nat)) * (q * pow2(s as nat)),
{
    let r = Big::of(q).times_plus(q, 0).shifted(2 * s);
    proof {
        lemma_pow2_adds(s as nat, s as nat);
        let (a, p) = (q as int, pow2(s as nat) as int);
        assert((a * a + 0) * (p * p) == (a * p) * (a * p)) by (nonlinear_arith);
    }
    r
}

/// The double nearest to the square root of the size of a number times 2 to the power 1074.
fn root_of_size(a: Number) -> (r: Number)
    requires
        a.finite(),
    ensures
        r.nearest_root(a.size() * pow2(1074)),
{
    let (qa, sa) = a.parts();
    let x = Big::of(qa).shifted(sa).shifted(1074);
    let ghost vx = a.size() * pow2(1074);
    assert(x.value() == vx);
    let mut lo: u64 = 0;
    let mut hi: u64 = INFINITY;
    proof {
        let zero = Number::of(0);
        crate::number::lemma_size_of_zero(zero);
        crate::number::lemma_size_of_zero(a);
        lemma_pow2_pos(1074);
        let (s, u) = (a.size(), pow2(1074) as int);
        assert(s * u >= 0) by (nonlinear_arith)
            requires
                s >= 0,
                u > 0,
        ;
        lemma_beyond_roots(a);
    }
    while hi - lo > 1
        invariant
            lo < hi <= INFINITY,
            vx == x.value(),
            Number::of(lo as int).size() * Number::of(lo as int).size() <= vx,
            vx < Number::of(hi as int).size() * Number::of(hi as int).size(),
        decreases hi - lo,
    {
        let mid = lo + (hi - lo) / 2;
        let n = Number { bits: mid };
        let (q, s) = n.parts();
        let square = squared_size(q, s);
        assert(n == Number::of(mid as int));
        if square.compare(&x) == Comparison::Greater {
            hi = mid;
        } else {
            lo = mid;
        }
    }
    let n = Number { bits: lo };
    let next = Number { bits: lo + 1 };
    let (q, s) = n.parts();
    let half_way = squared_size(2 * q + 1, s);
    let four = x.times_plus(4, 0);
    proof {
        assert(n == Number::of(lo as int) && next == Number::of(lo + 1));
        crate::number::lemma_next(n);
        crate::number::lemma_size_of_zero(n);
        let (a, b) = (n.size(), next.size());
        assert(half_way.value() == (a + b) * (a + b));
        assert((a + a) * (a + a) == 4 * (a * a) && (b + b) * (b + b) == 4 * (b * b)) by (nonlinear_arith);
        if lo > 0 {
            let below = Number::of(lo - 1);
            crate::number::lemma_size_of_zero(below);
            crate::number::lemma_size_increases(below, n);
            lemma_square(a + below.size(), a + a);
        }
        if lo + 1 < INFINITY {
            let above = Number::of(lo + 2);
            crate::number::lemma_size_increases(next, above);
            lemma_square(b + b, b + above.size());
        }
    }
    let c = four.compare(&half_way);
    if c == Comparison::Greater || (c == Comparison::Equal && lo % 2 == 1) {
        proof {
            lemma_nearest_root(next, vx);
        }
        next
    } else {
        proof {
            lemma_nearest_root(n, vx);
        }
        n
    }
}

/// No root of a finite number comes near infinity.
proof fn lemma_beyond_roots(a: Number)
    requires
        a.finite(),
    ensures
        a.size() * pow2(1074) < Number::of(INFINITY as int).size() * Number::of(
            INFINITY as int,
        ).size(),
{
    let top = Number::of(INFINITY as int);
    crate::number::lemma_size_increases(a, top);
    crate::number::lemma_size_of_zero(a);
    assert(top.significand() == HIDDEN && top.scale() == 2046);
    lemma_pow2_strictly_increases(1074, 2046);
    lemma_pow2_pos(1074);
    let (s, t, u, w) = (a.size(), top.size(), pow2(1074) as int, pow2(2046) as int);
    assert(s * u < t * t) by (nonlinear_arith)
        requires
            0 <= s < t,
            0 < u < w,
            t == HIDDEN * w,
    ;
}

impl Number {
    /// The square root of a double.
    pub fn square_root(self) -> (r: Number)
        ensures
            r == self.root(),
    {
        let a = self.magnitude_bits();
        if a > INFINITY || (self.bits >= SIGN && a > 0) {
            return Number { bits: NOT_A_NUMBER };
        }
        if a == 0 || a == INFINITY {
            return self;
        }
        let n = root_of_size(self);
        proof {
            law_of_root(n, self.size() * pow2(1074));
        }
        n
    }

    /// The count nearest to a number.
    pub fn round_to_count(self) -> (r: usize)
        ensures
            r == self.to_count(),
    {
        if self.is_nan() || self.bits >= SIGN {
            return 0;
        }
        if self.bits == INFINITY {
            return usize::MAX;
        }
        let (q, s) = self.parts();
        let ghost u = pow2(1074) as int;
        proof {
            lemma_pow2_pos(1074);
        }
        if s >= 1074 {
            let shift: u32 = s - 1074;
            let ghost w = pow2(shift as nat) as int;
            proof {
                lemma_pow2_adds(shift as nat, 1074);
                lemma_pow2_pos(shift as nat);
                let v = q as int;
                assert(v * (w * u) == (v * w) * u) by (nonlinear_arith);
                let y = v * w;
                assert((2 * (y * u) + u) / (2 * u) == y) by (nonlinear_arith)
                    requires
                        u > 0,
                ;
                assert(self.rounded() == y);
            }
            if shift >= 64 {
                proof {
                    lemma_pow2_adds(32, 32);
                    lemma2_to64();
                    if shift > 64 {
                        lemma_pow2_strictly_increases(64, shift as nat);
                    }
                    let v = q as int;
                    assert(v * w > usize::MAX) by (nonlinear_arith)
                        requires
                            v >= HIDDEN,
                            w >= 0x1_0000_0000_0000_0000,
                    ;
                }
                return usize::MAX;
            }
            let factor: u64 = 1u64 << shift;
            proof {
                lemma2_to64();
                lemma2_to64_rest();
                if shift < 63 {
                    lemma_pow2_strictly_increases(shift as nat, 63);
                }
                vstd::bits::lemma_u64_shl_is_mul(1, shift as u64);
                assert(0 <= q * factor <= 0x20_0000_0000_0000 * 0x8000_0000_0000_0000) by (nonlinear_arith)
                    requires
                        0 <= q <= 0x20_0000_0000_0000,
                        0 <= factor <= 0x8000_0000_0000_0000,
                ;
            }
            let y: u128 = (q as u128) * (factor as u128);
            if y > usize::MAX as u128 {
                usize::MAX
            } else {
                y as usize
            }
        } else {
            let shift: u32 = 1074 - s;
            let ghost w = pow2(shift as nat) as int;
            proof {
                lemma_pow2_adds(shift as nat, s as nat);
                lemma_pow2_pos(shift as nat);
                lemma_pow2_pos(s as nat);
                lemma_halved(q as int, w, pow2(s as nat) as int);
                assert(u == w * pow2(s as nat));
                assert(self.rounded() == (2 * q + w) / (2 * w));
            }
            if shift >= 60 {
                proof {
                    lemma2_to64();
                    lemma2_to64_rest();
                    if shift > 60 {
                        lemma_pow2_strictly_increases(60, shift as nat);
                    }
                    let v = q as int;
                    assert((2 * v + w) / (2 * w) == 0) by (nonlinear_arith)
                        requires
                            0 <= 2 * v < w,
                    ;
                }
                return 0;
            }
            let unit: u64 = 1u64 << shift;
            proof {
                lemma2_to64();
                lemma2_to64_rest();
                lemma_pow2_strictly_increases(shift as nat, 60);
                vstd::bits::lemma_u64_shl_is_mul(1, shift as u64);
            }
            let y: u64 = (2 * q + unit) / (2 * unit);
            if y > usize::MAX as u64 {
                usize::MAX
            } else {
                y as usize
            }
        }
    }
}

/// A common factor does not change where a quotient rounds to.
proof fn lemma_halved(q: int, w: int, p: int)
    requires
        q >= 0,
        w > 0,
        p > 0,
    ensures
        (2 * (q * p) + w * p) / (2 * (w * p)) == (2 * q + w) / (2 * w),
{
    let a = 2 * q + w;
    let b = 2 * w;
    assert(2 * (q * p) + w * p == a * p && 2 * (w * p) == b * p) by (nonlinear_arith)
        requires
            a == 2 * q + w,
            b == 2 * w,
    ;
    let d = a / b;
    let r = a % b;
    assert(a == b * d + r && 0 <= r < b) by (nonlinear_arith)
        requires
            d == a / b,
            r == a % b,
            b > 0,
    ;
    assert((a * p) / (b * p) == d) by (nonlinear_arith)
        requires
            a == b * d + r,
            0 <= r < b,
            p > 0,
    ;
}

}
