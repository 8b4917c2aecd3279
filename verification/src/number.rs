//! Numeric cells, held as the bit patterns of IEEE 754 binary64 numbers.
//!
//! A [`Number`] is the 64 bits of a double. Comparing and rounding doubles is work on integers, and
//! the contracts speak of the exact value that the bits stand for, counted in units of the least
//! positive double.
use vstd::prelude::*;
use vstd::arithmetic::power2::*;
use crate::big::{Big, Comparison};

verus! {

/// The bit pattern of an IEEE 754 binary64 number.
#[derive(Clone, Copy, Debug, PartialEq, Eq, Structural)]
pub struct Number {
    pub bits: u64,
}

/// 2 to the power 63: the sign bit.
pub const SIGN: u64 = 0x8000_0000_0000_0000;

/// The bits of positive infinity.
pub const INFINITY: u64 = 0x7ff0_0000_0000_0000;

/// 2 to the power 52: the implied leading bit of a significand.
pub const HIDDEN: u64 = 0x10_0000_0000_0000;

/// The bits of the double nearest to one billionth, the tolerance within which two numbers are
/// taken to be equal.
pub const TOLERANCE: u64 = 0x3e11_2e0b_e826_d695;

/// The bits of 1.
pub const ONE: u64 = 0x3ff0_0000_0000_0000;

/// The point half-way between the tolerance and the double below it, in units of 2 to the power
/// 980 of the least positive double.
const HALF_WAY: u128 = 0x112e0be826d694800;

impl View for Number {
    type V = Number;

    open spec fn view(&self) -> Number {
        *self
    }
}

impl Number {
    /// The number with given bits.
    pub open spec fn of(bits: int) -> Number {
        Number { bits: bits as u64 }
    }

    /// The exact distance between two finite numbers, in units of the least positive double.
    pub open spec fn distance(self, other: Number) -> int {
        if self.exact() < other.exact() {
            other.exact() - self.exact()
        } else {
            self.exact() - other.exact()
        }
    }

    /// Whether the sign bit is set.
    pub open spec fn negative(self) -> bool {
        self.bits >= SIGN
    }

    /// The bits without the sign bit.
    pub open spec fn magnitude(self) -> int {
        if self.bits >= SIGN {
            self.bits - SIGN
        } else {
            self.bits as int
        }
    }

    /// Not a number.
    pub open spec fn nan(self) -> bool {
        self.magnitude() > INFINITY
    }

    /// Neither infinite nor not a number.
    pub open spec fn finite(self) -> bool {
        self.magnitude() < INFINITY
    }

    /// The place of the number on a line of integers: the sign and the magnitude bits. Both zeros
    /// have the place 0.
    pub open spec fn place(self) -> int {
        if self.negative() {
            -self.magnitude()
        } else {
            self.magnitude()
        }
    }

    /// The significand, with its leading bit.
    pub open spec fn significand(self) -> int {
        if self.magnitude() < HIDDEN {
            self.magnitude()
        } else {
            self.magnitude() % (HIDDEN as int) + HIDDEN
        }
    }

    /// The power of two that the significand is multiplied by, counted from the least one.
    pub open spec fn scale(self) -> nat {
        if self.magnitude() < HIDDEN {
            0
        } else {
            (self.magnitude() / (HIDDEN as int) - 1) as nat
        }
    }

    /// The exact absolute value of a finite number, in units of the least positive double (2 to
    /// the power -1074).
    pub open spec fn size(self) -> int {
        self.significand() * pow2(self.scale())
    }

    /// The exact value of a finite number, in units of the least positive double.
    pub open spec fn exact(self) -> int {
        if self.negative() {
            -self.size()
        } else {
            self.size()
        }
    }

    /// `self <= other`, false when either is not a number.
    pub open spec fn le(self, other: Number) -> bool {
        !self.nan() && !other.nan() && self.place() <= other.place()
    }

    /// `self < other`, false when either is not a number.
    pub open spec fn lt(self, other: Number) -> bool {
        !self.nan() && !other.nan() && self.place() < other.place()
    }

    /// `self == other` as doubles: the zeros are equal, nothing equals what is not a number.
    pub open spec fn equals(self, other: Number) -> bool {
        !self.nan() && !other.nan() && self.place() == other.place()
    }

    /// Whether `self - other` is not a number: an operand is not, or both are the same infinity.
    pub open spec fn no_difference(self, other: Number) -> bool {
        self.nan() || other.nan() || (!self.finite() && self.place() == other.place())
    }

    /// Twice the point half-way between the tolerance and the double below it.
    pub open spec fn twice_half_way() -> int {
        Number::of(TOLERANCE - 1).size() + Number::of(TOLERANCE as int).size()
    }

    /// Whether `|self - other|`, rounded to a double, is below the tolerance. The tolerance has an
    /// odd significand, so that the half-way point below it rounds down.
    pub open spec fn near(self, other: Number) -> bool {
        &&& self.finite()
        &&& other.finite()
        &&& 2 * self.distance(other) <= Self::twice_half_way()
    }

    /// Whether `|self - other|`, rounded to a double, is at least the tolerance.
    pub open spec fn apart(self, other: Number) -> bool {
        !self.no_difference(other) && !self.near(other)
    }

    /// Whether `self` is the non-negative double nearest to `x` units, with the even one of two
    /// that are equally near. Infinity stands where the next double after the greatest would.
    pub open spec fn nearest(self, x: int) -> bool {
        self.nearest_ratio(x, 1)
    }

    /// The number without its sign.
    pub open spec fn absolute(self) -> Number {
        Number::of(self.magnitude())
    }

    /// Whether `self` is the double nearest to the integer `x`, with the even one of two that are
    /// equally near, and 0 for 0.
    pub open spec fn nearest_to_integer(self, x: int) -> bool {
        &&& self.negative() == (x < 0)
        &&& self.absolute().nearest((if x < 0 { -x } else { x }) * pow2(1074))
    }

    /// Whether `self` is the non-negative double nearest to `x` / `m` units, with the even one of
    /// two that are equally near. Infinity stands where the next double after the greatest would.
    pub open spec fn nearest_ratio(self, x: int, m: int) -> bool {
        &&& !self.negative()
        &&& !self.nan()
        &&& forall|o: Number|
            #![trigger o.size()]
            !o.negative() && !o.nan() ==> self.as_near(o, x, m)
    }

    /// Whether `x` / `m` units are nearer to `self` than to another double, or as near and `self` is
    /// that one, or even.
    pub open spec fn as_near(self, o: Number, x: int, m: int) -> bool {
        let mine = if x < self.size() * m { self.size() * m - x } else { x - self.size() * m };
        let theirs = if x < o.size() * m { o.size() * m - x } else { x - o.size() * m };
        mine < theirs || (mine == theirs && (o == self || self.bits % 2 == 0))
    }

    /// The double nearest to an integer.
    pub open spec fn of_integer(x: int) -> Number {
        choose|n: Number| n.nearest_to_integer(x)
    }

    /// The double nearest to an integer.
    pub fn from_i64(x: i64) -> (r: Number)
        ensures
            r == Number::of_integer(x as int),
            r.nearest_to_integer(x as int),
    {
        let a: u64 = if x < 0 { (-(x as i128)) as u64 } else { x as u64 };
        let n = round_scaled(a as u128, 1074);
        let r = if x < 0 {
            Number { bits: n.bits + SIGN }
        } else {
            n
        };
        proof {
            law_of_integer(r, x as int);
        }
        r
    }

    /// 1 for true and 0 for false.
    pub fn from_bool(b: bool) -> (r: Number)
        ensures
            r.bits == if b { ONE } else { 0 },
    {
        Number { bits: if b { ONE } else { 0 } }
    }

    /// Whether the number is not a number.
    pub fn is_nan(self) -> (r: bool)
        ensures
            r == self.nan(),
    {
        self.magnitude_bits() > INFINITY
    }

    /// The place of the number on a line of integers.
    pub(crate) fn place_on_line(self) -> (r: i64)
        ensures
            r == self.place() as i64,
    {
        if self.bits >= SIGN {
            -((self.bits - SIGN) as i64)
        } else {
            self.bits as i64
        }
    }

    pub(crate) fn magnitude_bits(self) -> (m: u64)
        ensures
            m == self.magnitude(),
    {
        if self.bits >= SIGN {
            self.bits - SIGN
        } else {
            self.bits
        }
    }

    /// `self <= other`.
    pub fn at_most(self, other: Number) -> (r: bool)
        ensures
            r == self.le(other),
    {
        let a = self.magnitude_bits();
        let b = other.magnitude_bits();
        if a > INFINITY || b > INFINITY {
            false
        } else if self.bits >= SIGN {
            if other.bits >= SIGN {
                a >= b
            } else {
                true
            }
        } else if other.bits >= SIGN {
            a == 0 && b == 0
        } else {
            a <= b
        }
    }

    /// `self < other`.
    pub fn below(self, other: Number) -> (r: bool)
        ensures
            r == self.lt(other),
    {
        !self.is_nan() && !other.is_nan() && !other.at_most(self)
    }

    /// The significand and the scale.
    pub(crate) fn parts(self) -> (r: (u64, u32))
        requires
            self.finite(),
        ensures
            r.0 == self.significand(),
            r.1 == self.scale(),
            r.0 < 2 * HIDDEN,
            r.1 < 2046,
            r.1 > 0 ==> r.0 >= HIDDEN,
    {
        let m = self.magnitude_bits();
        if m < HIDDEN {
            (m, 0)
        } else {
            (m % HIDDEN + HIDDEN, (m / HIDDEN - 1) as u32)
        }
    }

    /// Whether the two numbers differ by less than the tolerance.
    pub fn is_near(self, other: Number) -> (r: bool)
        ensures
            r == self.near(other),
    {
        if self.magnitude_bits() >= INFINITY || other.magnitude_bits() >= INFINITY {
            return false;
        }
        proof {
            lemma_half_way();
            lemma_pow2_pos(980);
        }
        if self.bits == other.bits {
            return true;
        }
        let (ma, sa) = self.parts();
        let (mb, sb) = other.parts();
        if sa > 1054 || sb > 1054 {
            proof {
                lemma_far(self, other);
            }
            return false;
        }
        if sa < 980 && sb < 980 {
            proof {
                lemma_close(self, other);
            }
            return true;
        }
        let (va, fa) = aligned(ma, sa);
        let (vb, fb) = aligned(mb, sb);
        let limit: u128 = HALF_WAY;
        let ghost u = pow2(980) as int;
        let ghost ra = self.size() - va * u;
        let ghost rb = other.size() - vb * u;
        if (self.bits >= SIGN) != (other.bits >= SIGN) {
            let carry: u128 = if fa || fb { 1 } else { 0 };
            proof {
                lemma_whole_units(va + vb, ra + rb, limit as int, u);
                assert((va + vb) * u == va * u + vb * u) by (nonlinear_arith);
            }
            va + vb + carry <= limit
        } else if va > vb {
            let carry: u128 = if fa { 1 } else { 0 };
            proof {
                lemma_whole_units(va - vb, ra - rb, limit as int, u);
                assert((va - vb) * u == va * u - vb * u) by (nonlinear_arith);
            }
            va - vb + carry <= limit
        } else {
            let carry: u128 = if fb { 1 } else { 0 };
            proof {
                lemma_whole_units(vb - va, rb - ra, limit as int, u);
                assert((vb - va) * u == vb * u - va * u) by (nonlinear_arith);
            }
            vb - va + carry <= limit
        }
    }

    /// Whether the two numbers differ by at least the tolerance.
    pub fn is_apart(self, other: Number) -> (r: bool)
        ensures
            r == self.apart(other),
    {
        let a = self.magnitude_bits();
        let b = other.magnitude_bits();
        if a > INFINITY || b > INFINITY || (a == INFINITY && self.bits == other.bits) {
            false
        } else {
            !self.is_near(other)
        }
    }

    /// `self == other`.
    pub fn same_value(self, other: Number) -> (r: bool)
        ensures
            r == self.equals(other),
    {
        self.at_most(other) && other.at_most(self)
    }
}

/// 2 to the power `e`.
fn power_of_two(e: u32) -> (p: u128)
    requires
        e < 128,
    ensures
        p == pow2(e as nat),
{
    let mut p: u128 = 1;
    let mut i: u32 = 0;
    proof {
        lemma2_to64();
        lemma2_to64_rest();
        lemma_pow2_adds(63, 64);
    }
    while i < e
        invariant
            i <= e < 128,
            p == pow2(i as nat),
            pow2(127) <= 0x8000_0000_0000_0000_0000_0000_0000_0000,
        decreases e - i,
    {
        proof {
            lemma_pow2_unfold((i + 1) as nat);
            if i + 1 < 127 {
                lemma_pow2_strictly_increases((i + 1) as nat, 127);
            }
        }
        p = p * 2;
        i = i + 1;
    }
    p
}

/// The size of the double with a given scale and significand; the significand may be twice the
/// hidden bit.
pub(crate) proof fn lemma_units(scale: int, q: int)
    requires
        0 <= scale <= 2045,
        HIDDEN <= q <= 2 * HIDDEN,
    ensures
        (scale * HIDDEN + q) < SIGN,
        Number::of(scale * HIDDEN + q).size() == q * pow2(scale as nat),
{
    let h = HIDDEN as int;
    let m = scale * h + q;
    let n = Number::of(m);
    lemma_pow2_unfold((scale + 1) as nat);
    assert(m <= 2047 * h) by (nonlinear_arith)
        requires
            m == scale * h + q,
            scale <= 2045,
            q <= 2 * h,
            h > 0,
    ;
    if q < 2 * h {
        assert(m / h == scale + 1 && m % h == q - h) by (nonlinear_arith)
            requires
                m == scale * h + q,
                h <= q < 2 * h,
                h > 0,
        ;
    } else {
        assert(m / h == scale + 2 && m % h == 0) by (nonlinear_arith)
            requires
                m == scale * h + 2 * h,
                h > 0,
        ;
        let w = pow2(scale as nat) as int;
        assert(h * (2 * w) == (2 * h) * w) by (nonlinear_arith);
    }
}

/// A number is near another exactly when the difference between them, rounded to a double, is
/// below the tolerance.
pub proof fn law_near_is_rounded_difference(a: Number, b: Number, difference: Number)
    requires
        a.finite(),
        b.finite(),
        difference.nearest(a.distance(b)),
    ensures
        a.near(b) <==> difference.lt(Number::of(TOLERANCE as int)),
{
    let x = a.distance(b);
    let c = Number::of(TOLERANCE as int);
    let d = Number::of(TOLERANCE - 1);
    lemma_size_increases(d, c);
    assert(c.finite() && d.finite());
    if difference.bits < TOLERANCE {
        if difference.bits < d.bits {
            lemma_size_increases(difference, d);
        }
        assert(d.size() < c.size());
    } else {
        if difference.bits > c.bits {
            lemma_size_increases(c, difference);
        }
        assert(d.size() < c.size());
    }
}

/// A significand and its scale in whole units of 2 to the power 980, and whether anything is left
/// over.
fn aligned(m: u64, s: u32) -> (r: (u128, bool))
    requires
        m < 2 * HIDDEN,
        s <= 1054,
    ensures
        r.0 < 0x8000_0000_0000_0000_0000_0000_0000_0000,
        0 <= m * pow2(s as nat) - r.0 * pow2(980) < pow2(980),
        r.1 <==> m * pow2(s as nat) - r.0 * pow2(980) > 0,
        s >= 980 ==> !r.1,
{
    proof {
        lemma2_to64();
        lemma2_to64_rest();
        lemma_pow2_pos(980);
        lemma_pow2_pos(s as nat);
    }
    if s >= 980 {
        let p = power_of_two(s - 980);
        proof {
            lemma_pow2_adds(64, 10);
            if s < 1054 {
                lemma_pow2_strictly_increases((s - 980) as nat, 74);
            }
            lemma_pow2_adds((s - 980) as nat, 980);
            assert(m * p <= (2 * HIDDEN - 1) * 0x400_0000_0000_0000_0000) by (nonlinear_arith)
                requires
                    m <= 2 * HIDDEN - 1,
                    p <= 0x400_0000_0000_0000_0000,
            ;
            assert(m * (p * pow2(980)) == (m * p) * pow2(980)) by (nonlinear_arith);
            assert(m * pow2(s as nat) - (m * p) * pow2(980) == 0);
        }
        (m as u128 * p, false)
    } else if 980 - s >= 53 {
        proof {
            if 53 < 980 - s {
                lemma_pow2_strictly_increases(53, (980 - s) as nat);
            }
            lemma_pow2_adds((980 - s) as nat, s as nat);
            let q = pow2((980 - s) as nat) as int;
            let t = pow2(s as nat) as int;
            assert(0 <= m * t < q * t && (m > 0 <==> m * t > 0)) by (nonlinear_arith)
                requires
                    0 <= m < q,
                    t > 0,
            ;
        }
        (0, m != 0)
    } else {
        let p = power_of_two(980 - s);
        let v = m as u128 / p;
        let f = m as u128 % p;
        proof {
            lemma_pow2_adds((980 - s) as nat, s as nat);
            let t = pow2(s as nat) as int;
            assert(m == v * p + f) by (nonlinear_arith)
                requires
                    v == m as u128 / p,
                    f == m as u128 % p,
                    p > 0,
            ;
            assert(m * t == v * (p * t) + f * t && 0 <= f * t < p * t && (f > 0 <==> f * t > 0))
                by (nonlinear_arith)
                requires
                    m == v * p + f,
                    0 <= f < p,
                    t > 0,
            ;
            assert(v <= m) by (nonlinear_arith)
                requires
                    m == v * p + f,
                    p > 0,
                    f >= 0,
                    v >= 0,
            ;
        }
        (v, f != 0)
    }
}

/// Twice the half-way point, in units of 2 to the power 980.
proof fn lemma_half_way()
    ensures
        Number::twice_half_way() == 2 * (HALF_WAY * pow2(980)),
{
    lemma2_to64();
    lemma_pow2_adds(12, 980);
    let m = TOLERANCE as int;
    let h = HIDDEN as int;
    assert(m / h == 993 && (m - 1) / h == 993);
    assert(2048 * (m % h + h + ((m - 1) % h + h)) == HALF_WAY);
    let p = pow2(992) as int;
    let x = m % h + h;
    let y = (m - 1) % h + h;
    assert(x * p + y * p == (x + y) * p) by (nonlinear_arith);
    let u = pow2(980) as int;
    let hw = HALF_WAY as int;
    assert((x + y) * (4096 * u) == 2 * (hw * u)) by (nonlinear_arith)
        requires
            2048 * (x + y) == hw,
    ;
}

/// A whole number of units and a part of a unit against a whole number of units.
proof fn lemma_whole_units(k: int, f: int, limit: int, u: int)
    requires
        k >= 0,
        -u < f < u,
        u > 0,
        limit >= 1,
    ensures
        f > 0 ==> (-(limit * u) <= k * u + f <= limit * u <==> k + 1 <= limit),
        f <= 0 ==> (-(limit * u) <= k * u + f <= limit * u <==> k <= limit),
{
    assert(limit * u >= u && k * u >= 0) by (nonlinear_arith)
        requires
            limit >= 1,
            u > 0,
            k >= 0,
    ;
    if k + 1 <= limit {
        assert(k * u + u <= limit * u) by (nonlinear_arith)
            requires
                k + 1 <= limit,
                u > 0,
        ;
    } else if k == limit {
    } else {
        assert(k * u >= limit * u + u) by (nonlinear_arith)
            requires
                k >= limit + 1,
                u > 0,
        ;
    }
}

/// Two numbers below 2 to the power 980, in their last places, are within the tolerance.
proof fn lemma_close(a: Number, b: Number)
    requires
        a.finite(),
        b.finite(),
        a.scale() < 980,
        b.scale() < 980,
    ensures
        a.near(b),
{
    lemma_half_way();
    lemma_size_of_zero(a);
    lemma_size_of_zero(b);
    let u = pow2(980) as int;
    lemma_pow2_strictly_increases(a.scale(), 980);
    lemma_pow2_strictly_increases(b.scale(), 980);
    let (ma, mb) = (a.significand(), b.significand());
    let (pa, pb) = (pow2(a.scale()) as int, pow2(b.scale()) as int);
    assert(ma * pa <= 2 * HIDDEN * u) by (nonlinear_arith)
        requires
            0 <= ma < 2 * HIDDEN,
            0 <= pa <= u,
    ;
    assert(mb * pb <= 2 * HIDDEN * u) by (nonlinear_arith)
        requires
            0 <= mb < 2 * HIDDEN,
            0 <= pb <= u,
    ;
    assert(HALF_WAY * u >= 4 * HIDDEN * u && 4 * HIDDEN * u == 2 * (2 * HIDDEN * u))
        by (nonlinear_arith)
        requires
            u >= 0,
            HALF_WAY >= 4 * HIDDEN,
    ;
}

/// Two different numbers, one of which is a multiple of 2 to the power 1055, are not within the
/// tolerance.
proof fn lemma_far(a: Number, b: Number)
    requires
        a.finite(),
        b.finite(),
        a != b,
        a.scale() > 1054 || b.scale() > 1054,
    ensures
        !a.near(b),
{
    if a.scale() > 1054 {
        lemma_far_from(a, b);
    } else {
        lemma_far_from(b, a);
    }
}

proof fn lemma_far_from(a: Number, b: Number)
    requires
        a.finite(),
        b.finite(),
        a != b,
        a.scale() > 1054,
    ensures
        !a.near(b),
        !b.near(a),
{
    lemma_half_way();
    lemma_size_of_zero(a);
    lemma_size_of_zero(b);
    lemma2_to64();
    lemma2_to64_rest();
    let u = pow2(980) as int;
    let w = pow2(1046) as int;
    lemma_pow2_pos(980);
    lemma_pow2_adds(66, 980);
    lemma_pow2_adds(64, 2);
    assert(w > HALF_WAY * u) by (nonlinear_arith)
        requires
            w == 0x4_0000_0000_0000_0000 * u,
            u > 0,
            HALF_WAY < 0x4_0000_0000_0000_0000,
    ;
    let (ma, mb) = (a.significand(), b.significand());
    let qa = pow2((a.scale() - 1046) as nat) as int;
    lemma_pow2_adds((a.scale() - 1046) as nat, 1046);
    assert(qa >= 512) by {
        lemma_pow2_adds(9, (a.scale() - 1055) as nat);
        lemma_pow2_pos((a.scale() - 1055) as nat);
    }
    assert(a.size() == (ma * qa) * w) by (nonlinear_arith)
        requires
            a.size() == ma * (qa * w),
    ;
    if b.scale() >= 1046 {
        let qb = pow2((b.scale() - 1046) as nat) as int;
        lemma_pow2_adds((b.scale() - 1046) as nat, 1046);
        assert(b.size() == (mb * qb) * w) by (nonlinear_arith)
            requires
                b.size() == mb * (qb * w),
        ;
        law_order_is_by_value(a, b);
        assert(a.exact() != b.exact());
        let ka = if a.negative() { -(ma * qa) } else { ma * qa };
        let kb = if b.negative() { -(mb * qb) } else { mb * qb };
        assert(a.exact() == ka * w) by (nonlinear_arith)
            requires
                a.size() == (ma * qa) * w,
                a.exact() == a.size() && ka == ma * qa || a.exact() == -a.size() && ka == -(ma * qa),
        ;
        assert(b.exact() == kb * w) by (nonlinear_arith)
            requires
                b.size() == (mb * qb) * w,
                b.exact() == b.size() && kb == mb * qb || b.exact() == -b.size() && kb == -(mb * qb),
        ;
        assert(ka * w - kb * w >= w || kb * w - ka * w >= w) by (nonlinear_arith)
            requires
                ka * w != kb * w,
                w > 0,
        ;
    } else {
        let pb = pow2(b.scale()) as int;
        lemma_pow2_strictly_increases(b.scale(), 1046);
        assert(mb * pb <= 2 * HIDDEN * w) by (nonlinear_arith)
            requires
                0 <= mb < 2 * HIDDEN,
                0 <= pb <= w,
        ;
        assert((ma * qa) * w >= 512 * HIDDEN * w) by (nonlinear_arith)
            requires
                ma >= HIDDEN,
                qa >= 512,
                w > 0,
        ;
        assert(512 * HIDDEN * w >= 2 * HIDDEN * w + w) by (nonlinear_arith)
            requires
                w > 0,
        ;
    }
}

/// The order of places is the order of values: of two finite numbers the one with the lower place
/// has the lower exact value.
pub proof fn law_order_is_by_value(a: Number, b: Number)
    requires
        a.finite(),
        b.finite(),
    ensures
        a.place() < b.place() <==> a.exact() < b.exact(),
        a.place() == b.place() <==> a.exact() == b.exact(),
{
    lemma_size_of_zero(a);
    lemma_size_of_zero(b);
    if a.magnitude() < b.magnitude() {
        lemma_size_increases(a, b);
    } else if b.magnitude() < a.magnitude() {
        lemma_size_increases(b, a);
    }
}

/// The size is 0 at magnitude 0 and positive elsewhere, and is fixed by the magnitude.
pub(crate) proof fn lemma_size_of_zero(a: Number)
    ensures
        a.size() >= 0,
        a.size() == 0 <==> a.magnitude() == 0,
        a.significand() >= 0,
        a.significand() < 2 * HIDDEN,
        pow2(a.scale()) >= 1,
{
    lemma_pow2_pos(a.scale());
    lemma2_to64();
    let s = a.significand();
    let p = pow2(a.scale()) as int;
    assert(s * p >= s && (s == 0 ==> s * p == 0)) by (nonlinear_arith)
        requires
            s >= 0,
            p >= 1,
    ;
}

/// Size grows with the magnitude.
pub(crate) proof fn lemma_size_increases(a: Number, b: Number)
    requires
        a.magnitude() < b.magnitude(),
    ensures
        a.size() < b.size(),
{
    lemma_size_of_zero(a);
    lemma_size_of_zero(b);
    let h = HIDDEN as int;
    let (sa, sb) = (a.significand(), b.significand());
    let (pa, pb) = (pow2(a.scale()) as int, pow2(b.scale()) as int);
    if a.scale() == b.scale() && (a.magnitude() < h) == (b.magnitude() < h) {
        assert(sa < sb);
        assert(sa * pa < sb * pa) by (nonlinear_arith)
            requires
                sa < sb,
                pa >= 1,
        ;
    } else if b.magnitude() < 2 * h {
        assert(a.scale() == 0 && b.scale() == 0);
        assert(sa < sb);
        assert(sa * pa < sb * pa) by (nonlinear_arith)
            requires
                sa < sb,
                pa >= 1,
        ;
    } else {
        assert(a.scale() + 1 <= b.scale());
        assert(pb >= 2 * pa) by {
            lemma_pow2_unfold(b.scale());
            if a.scale() < b.scale() - 1 {
                lemma_pow2_strictly_increases(a.scale(), (b.scale() - 1) as nat);
            }
        }
        assert(sa * pa < sb * pb) by (nonlinear_arith)
            requires
                0 <= sa < 2 * h,
                h <= sb,
                h > 0,
                pa >= 1,
                pb >= 2 * pa,
        ;
    }
}

/// The double nearest to an integer is one number, and no other.
pub proof fn law_of_integer(n: Number, x: int)
    requires
        n.nearest_to_integer(x),
    ensures
        n == Number::of_integer(x),
{
    let m = Number::of_integer(x);
    let a = n.absolute();
    let b = m.absolute();
    assert(m.nearest_to_integer(x));
    let y = (if x < 0 { -x } else { x }) * pow2(1074);
    lemma_ratio_unique(a, b, y, 1);
    lemma_ratio_unique(b, a, y, 1);
    assert(n.magnitude() == m.magnitude());
}

/// The double nearest to an integer is a number.
pub(crate) proof fn lemma_integer_is_number(x: int, n: Number)
    requires
        n.nearest_to_integer(x),
    ensures
        !n.nan(),
{
    assert(!n.absolute().nan());
}

/// There is room for a difference below the tolerance.
pub(crate) proof fn lemma_tolerance_is_positive()
    ensures
        Number::twice_half_way() > 0,
{
    lemma_size_of_zero(Number::of(TOLERANCE - 1));
    lemma_size_of_zero(Number::of(TOLERANCE as int));
}

/// Products with a positive factor are ordered as the other factors.
pub(crate) proof fn lemma_scaled(a: int, b: int, m: int)
    requires
        a < b,
        m > 0,
    ensures
        a * m < b * m,
{
    assert(a * m < b * m) by (nonlinear_arith)
        requires
            a < b,
            m > 0,
    ;
}

/// A double is the nearest one to all that lies between the half-way points to its neighbours.
pub(crate) proof fn lemma_nearest_ratio(n: Number, x: int, m: int)
    requires
        m > 0,
        x >= 0,
        n.bits <= INFINITY,
        n.bits < INFINITY ==> 2 * x <= n.size() * m + Number::of(n.bits + 1).size() * m,
        n.bits < INFINITY && 2 * x == n.size() * m + Number::of(n.bits + 1).size() * m
            ==> n.bits % 2 == 0,
        n.bits > 0 ==> 2 * x >= n.size() * m + Number::of(n.bits - 1).size() * m,
        n.bits > 0 && 2 * x == n.size() * m + Number::of(n.bits - 1).size() * m ==> n.bits % 2
            == 0,
    ensures
        n.nearest_ratio(x, m),
{
    let above = Number::of(n.bits + 1);
    let below = Number::of(n.bits - 1);
    if n.bits == 0 {
        lemma_size_of_zero(n);
        assert(0 * m == 0);
    }
    assert forall|o: Number|
        #![trigger o.size()]
        !o.negative() && !o.nan() implies n.as_near(o, x, m) by {
        if o.bits > n.bits {
            lemma_size_increases(n, above);
            lemma_scaled(n.size(), above.size(), m);
            if above.bits < o.bits {
                lemma_size_increases(above, o);
                lemma_scaled(above.size(), o.size(), m);
            }
        } else if o.bits < n.bits {
            lemma_size_increases(below, n);
            lemma_scaled(below.size(), n.size(), m);
            if o.bits < below.bits {
                lemma_size_increases(o, below);
                lemma_scaled(o.size(), below.size(), m);
            }
        }
    }
}

/// There is one nearest double.
pub(crate) proof fn lemma_ratio_unique(a: Number, b: Number, x: int, m: int)
    requires
        m > 0,
        a.nearest_ratio(x, m),
        b.nearest_ratio(x, m),
    ensures
        a.bits >= b.bits,
{
    if a.bits < b.bits {
        let c = Number::of(a.bits + 1);
        lemma_size_increases(a, b);
        lemma_scaled(a.size(), b.size(), m);
        assert(a.as_near(b, x, m));
        assert(b.as_near(a, x, m));
        assert(a.bits % 2 == 0 && b.bits % 2 == 0);
        lemma_size_increases(a, c);
        lemma_scaled(a.size(), c.size(), m);
        lemma_size_increases(c, b);
        lemma_scaled(c.size(), b.size(), m);
        assert(a.as_near(c, x, m));
    }
}

/// The next double is one unit of the scale away.
pub(crate) proof fn lemma_next(n: Number)
    requires
        n.bits < INFINITY,
    ensures
        Number::of(n.bits + 1).size() == n.size() + pow2(n.scale()),
        n.size() + Number::of(n.bits + 1).size() == (2 * n.significand() + 1) * pow2(n.scale()),
{
    let h = HIDDEN as int;
    let next = Number::of(n.bits + 1);
    let (q, w) = (n.significand(), pow2(n.scale()) as int);
    if n.bits < HIDDEN {
        lemma2_to64();
        assert(next.size() == q + 1) by {
            if n.bits + 1 < HIDDEN {
                assert(next.significand() == q + 1 && next.scale() == 0);
                assert((q + 1) * 1 == q + 1);
            } else {
                lemma_units(0, h);
            }
        }
        assert(q * 1 == q);
    } else {
        assert(n.bits == (n.bits as int / h) * h + n.bits as int % h) by (nonlinear_arith)
            requires
                h > 0,
        ;
        let s = n.scale() as int;
        assert(n.bits == s * h + q) by (nonlinear_arith)
            requires
                n.bits == (n.bits as int / h) * h + n.bits as int % h,
                s == n.bits as int / h - 1,
                q == n.bits as int % h + h,
        ;
        assert(s <= 2045) by (nonlinear_arith)
            requires
                n.bits == s * h + q,
                q >= h,
                n.bits < 2047 * h,
                h > 0,
        ;
        lemma_units(s, q);
        lemma_units(s, q + 1);
        assert((q + 1) * w == q * w + w) by (nonlinear_arith);
    }
    assert(q * w + (q * w + w) == (2 * q + 1) * w) by (nonlinear_arith);
}

/// A number of units of a scale, times `m`.
fn scaled_size(m: &Big, significand: u64, scale: u32) -> (r: Big)
    ensures
        r.value() == (significand * pow2(scale as nat)) * m.value(),
{
    let t = m.times_plus(significand, 0);
    let r = t.shifted(scale);
    proof {
        let (a, b, c) = (m.value(), significand as int, pow2(scale as nat) as int);
        assert((a * b + 0) * c == (b * c) * a) by (nonlinear_arith);
    }
    r
}

/// The double nearest to `x` / `m` units.
pub(crate) fn round_ratio(x: &Big, m: &Big) -> (r: Number)
    requires
        m.value() > 0,
    ensures
        r.nearest_ratio(x.value(), m.value()),
{
    let ghost (vx, vm) = (x.value(), m.value());
    proof {
        x.lemma_not_negative();
    }
    let beyond = scaled_size(m, HIDDEN, 2046);
    let ghost top = Number { bits: INFINITY };
    proof {
        assert(top.significand() == HIDDEN && top.scale() == 2046);
    }
    let infinite = x.compare(&beyond) != Comparison::Less;
    if infinite {
        let r = Number { bits: INFINITY };
        proof {
            let below = Number::of(INFINITY - 1);
            lemma_size_increases(below, r);
            lemma_scaled(below.size(), r.size(), vm);
            lemma_nearest_ratio(r, vx, vm);
        }
        return r;
    }
    let mut lo: u64 = 0;
    let mut hi: u64 = INFINITY;
    proof {
        lemma_size_of_zero(Number { bits: 0 });
        assert(0 * vm == 0);
    }
    while hi - lo > 1
        invariant
            lo < hi <= INFINITY,
            vx == x.value(),
            vm == m.value(),
            vm > 0,
            Number::of(lo as int).size() * vm <= vx,
            vx < Number::of(hi as int).size() * vm,
        decreases hi - lo,
    {
        let mid = lo + (hi - lo) / 2;
        let n = Number { bits: mid };
        let (q, s) = n.parts();
        let size = scaled_size(m, q, s);
        assert(n == Number::of(mid as int));
        if size.compare(x) == Comparison::Greater {
            hi = mid;
        } else {
            lo = mid;
        }
    }
    let n = Number { bits: lo };
    let next = Number { bits: lo + 1 };
    let (q, s) = n.parts();
    let half_way = scaled_size(m, 2 * q + 1, s);
    let twice = x.times_plus(2, 0);
    proof {
        assert(n == Number::of(lo as int) && next == Number::of(lo + 1));
        lemma_next(n);
        let (a, b) = (n.size(), next.size());
        assert((a + b) * vm == a * vm + b * vm) by (nonlinear_arith);
        if lo > 0 {
            let below = Number::of(lo - 1);
            lemma_size_increases(below, n);
            lemma_scaled(below.size(), n.size(), vm);
        }
        if lo + 1 < INFINITY {
            let above = Number::of(lo + 2);
            lemma_size_increases(next, above);
            lemma_scaled(next.size(), above.size(), vm);
        }
    }
    let c = twice.compare(&half_way);
    let up = c == Comparison::Greater || (c == Comparison::Equal && lo % 2 == 1);
    if up {
        proof {
            lemma_nearest_ratio(next, vx, vm);
        }
        next
    } else {
        proof {
            lemma_nearest_ratio(n, vx, vm);
        }
        n
    }
}

/// What is at least 2 to the power 2098 units rounds to infinity.
pub(crate) proof fn lemma_infinite(x: int)
    requires
        x >= pow2(2098),
    ensures
        Number::of(INFINITY as int).nearest_ratio(x, 1),
{
    let n = Number::of(INFINITY as int);
    let below = Number::of(INFINITY - 1);
    lemma_pow2_adds(52, 2046);
    lemma2_to64_rest();
    assert(pow2(52) == HIDDEN);
    assert(n.significand() == HIDDEN && n.scale() == 2046);
    lemma_size_increases(below, n);
    assert(n.size() * 1 == n.size() && below.size() * 1 == below.size());
    lemma_pow2_pos(2098);
    lemma_nearest_ratio(n, x, 1);
}

/// What is at most half a unit rounds to 0.
pub(crate) proof fn lemma_zero(x: int, m: int)
    requires
        m > 0,
        0 <= x,
        2 * x <= m,
    ensures
        Number::of(0).nearest_ratio(x, m),
{
    let n = Number::of(0);
    let above = Number::of(1);
    lemma2_to64();
    lemma_size_of_zero(n);
    assert(above.significand() == 1 && above.scale() == 0);
    assert(above.size() == 1);
    assert(0 * m == 0 && 1 * m == m);
    lemma_nearest_ratio(n, x, m);
}

/// A whole number of units of a scale is a double.
proof fn lemma_exactly(t: int, q: int, x: int)
    requires
        0 <= t <= 2045,
        0 <= q < 2 * HIDDEN,
        q >= HIDDEN || t == 0,
        x == q * pow2(t as nat),
    ensures
        0 <= t * HIDDEN + q < SIGN,
        Number::of(t * HIDDEN + q).nearest(x),
{
    let h = HIDDEN as int;
    assert(0 <= t * h + q < 2047 * h) by (nonlinear_arith)
        requires
            0 <= t <= 2045,
            0 <= q < 2 * h,
            h > 0,
    ;
    let n = Number::of(t * h + q);
    lemma_pow2_pos(t as nat);
    assert(x >= 0) by (nonlinear_arith)
        requires
            x == q * pow2(t as nat),
            q >= 0,
            pow2(t as nat) > 0,
    ;
    if q >= HIDDEN {
        lemma_units(t, q);
    } else {
        lemma2_to64();
        assert(n.significand() == q && n.scale() == 0);
    }
    assert(n.size() == x);
    assert(x * 1 == x);
    lemma_neighbours(n);
    lemma_nearest_ratio(n, x, 1);
}

/// The doubles next to a double are less and greater.
pub(crate) proof fn lemma_neighbours(n: Number)
    requires
        n.bits <= INFINITY,
    ensures
        n.bits > 0 ==> Number::of(n.bits - 1).size() * 1 < n.size() * 1,
        n.size() * 1 < Number::of(n.bits + 1).size() * 1,
{
    if n.bits > 0 {
        lemma_size_increases(Number::of(n.bits - 1), n);
    }
    lemma_size_increases(n, Number::of(n.bits + 1));
}

/// What lies between two neighbouring doubles rounds to the nearer one, and to the even one from
/// half-way.
proof fn lemma_between(t: int, q: int, rest: int, x: int, up: bool)
    requires
        0 <= t <= 2045,
        HIDDEN <= q < 2 * HIDDEN,
        0 <= rest < pow2(t as nat),
        x == q * pow2(t as nat) + rest,
        up <==> 2 * rest > pow2(t as nat) || (2 * rest == pow2(t as nat) && q % 2 == 1),
    ensures
        0 <= t * HIDDEN + q + 1 < SIGN,
        Number::of(t * HIDDEN + q + (if up { 1int } else { 0int })).nearest(x),
{
    let h = HIDDEN as int;
    let w = pow2(t as nat) as int;
    lemma_pow2_pos(t as nat);
    assert(0 <= t * h + q && t * h + q + 1 <= 2047 * h) by (nonlinear_arith)
        requires
            0 <= t <= 2045,
            0 <= q < 2 * h,
            h > 0,
    ;
    let n = Number::of(t * h + q);
    let next = Number::of(t * h + q + 1);
    lemma_units(t, q);
    lemma_units(t, q + 1);
    assert((q + 1) * w == q * w + w) by (nonlinear_arith);
    assert(x >= 0) by (nonlinear_arith)
        requires
            x == q * w + rest,
            q >= 0,
            w > 0,
            rest >= 0,
    ;
    assert((t * h + q) % 2 == q % 2) by (nonlinear_arith)
        requires
            h == 2 * 0x8_0000_0000_0000,
    ;
    assert(n.size() * 1 == q * w && next.size() * 1 == q * w + w);
    lemma_neighbours(n);
    lemma_neighbours(next);
    if up {
        assert((t * h + q + 1) % 2 == (q + 1) % 2);
        lemma_nearest_ratio(next, x, 1);
    } else {
        lemma_nearest_ratio(n, x, 1);
    }
}

/// The double nearest to `m` times 2 to the power `s` units.
pub(crate) fn round_scaled(m: u128, s: u32) -> (r: Number)
    requires
        m < 0x100_0000_0000_0000_0000_0000_0000_0000,
        s <= 2045,
    ensures
        r.nearest(m * pow2(s as nat)),
{
    let ghost x = m * pow2(s as nat);
    if m < 0x20_0000_0000_0000 {
        let mut q: u64 = m as u64;
        let mut t: u32 = s;
        while q < HIDDEN && t > 0
            invariant
                q < 2 * HIDDEN,
                t <= 2045,
                x == q * pow2(t as nat),
            decreases t,
        {
            proof {
                lemma_pow2_unfold(t as nat);
                let (a, b) = (q as int, pow2((t - 1) as nat) as int);
                assert(a * (2 * b) == (2 * a) * b) by (nonlinear_arith);
            }
            q = q * 2;
            t = t - 1;
        }
        proof {
            lemma_exactly(t as int, q as int, x);
            assert(t * HIDDEN <= 2045 * HIDDEN) by (nonlinear_arith)
                requires
                    t <= 2045,
            ;
        }
        return Number { bits: t as u64 * HIDDEN + q };
    }
    let mut unit: u128 = 1;
    let mut k: u32 = 0;
    proof {
        lemma2_to64();
    }
    while m / 0x20_0000_0000_0000 >= unit
        invariant
            0x20_0000_0000_0000 <= m < 0x100_0000_0000_0000_0000_0000_0000_0000,
            unit == pow2(k as nat),
            1 <= unit,
            k == 0 ==> unit == 1,
            k > 0 ==> unit * HIDDEN <= m,
            unit <= 0x1_0000_0000_0000_0000_0000,
            k <= 80,
        decreases 2 * m - unit,
    {
        proof {
            lemma_pow2_unfold((k + 1) as nat);
            if k >= 68 {
                lemma_too_far(k as nat);
            }
        }
        unit = unit * 2;
        k = k + 1;
    }
    proof {
        assert(k > 0);
    }
    let q: u128 = m / unit;
    let rest: u128 = m % unit;
    let t: u32 = s + k;
    proof {
        let (a, b, u, h) = (q as int, rest as int, unit as int, HIDDEN as int);
        assert(m == a * u + b && 0 <= b < u) by (nonlinear_arith)
            requires
                a == m as int / u,
                b == m as int % u,
                u > 0,
        ;
        assert(h <= a < 2 * h) by (nonlinear_arith)
            requires
                m == a * u + b,
                0 <= b < u,
                u * h <= m < u * (2 * h),
        ;
        lemma_pow2_adds(s as nat, k as nat);
        let w = pow2(t as nat) as int;
        let p = pow2(s as nat) as int;
        lemma_pow2_pos(s as nat);
        assert(x == a * w + b * p && 0 <= b * p < w) by (nonlinear_arith)
            requires
                x == m * p,
                m == a * u + b,
                0 <= b < u,
                w == p * u,
                p > 0,
        ;
        assert((2 * b > u <==> 2 * (b * p) > w) && (2 * b == u <==> 2 * (b * p) == w)) by (nonlinear_arith)
            requires
                w == p * u,
                p > 0,
        ;
    }
    if t > 2045 {
        proof {
            let w = pow2(t as nat) as int;
            let p = pow2(s as nat) as int;
            lemma_pow2_adds(52, t as nat);
            lemma2_to64_rest();
            if t > 2046 {
                lemma_pow2_strictly_increases(2098, (52 + t) as nat);
            }
            let (a, b) = (q as int, rest as int);
            assert(x >= HIDDEN * w) by (nonlinear_arith)
                requires
                    x == a * w + b * p,
                    b * p >= 0,
                    a >= HIDDEN,
                    w > 0,
            ;
            lemma_infinite(x);
        }
        return Number { bits: INFINITY };
    }
    let twice: u128 = 2 * rest;
    let up = twice > unit || (twice == unit && q % 2 == 1);
    proof {
        lemma_between(t as int, q as int, rest * pow2(s as nat), x, up);
        assert(t * HIDDEN <= 2045 * HIDDEN) by (nonlinear_arith)
            requires
                t <= 2045,
        ;
    }
    let bits: u64 = t as u64 * HIDDEN + q as u64;
    if up {
        Number { bits: bits + 1 }
    } else {
        Number { bits }
    }
}

/// 68 doublings of the greatest significand are beyond all bounds.
proof fn lemma_too_far(k: nat)
    requires
        k >= 68,
    ensures
        pow2(k) >= 0x10_0000_0000_0000_0000,
{
    lemma_pow2_adds(36, 32);
    lemma2_to64();
    lemma2_to64_rest();
    if k > 68 {
        lemma_pow2_strictly_increases(68, k);
    }
}

}
