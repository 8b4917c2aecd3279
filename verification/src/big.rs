//! Natural numbers of any size, as far as turning decimals into doubles needs them.
use vstd::prelude::*;
use vstd::arithmetic::power2::*;

verus! {

/// A natural number: its digits to the base 2 to the power 64, the lowest first.
pub(crate) struct Big {
    limbs: Vec<u64>,
}

/// How two numbers compare.
#[derive(Clone, Copy, PartialEq, Eq, Structural)]
pub(crate) enum Comparison {
    Less,
    Equal,
    Greater,
}

/// The place value of a digit.
spec fn unit(i: nat) -> int {
    pow2(64 * i) as int
}

/// A digit; 0 beyond the highest.
spec fn limb(s: Seq<u64>, i: int) -> int {
    if 0 <= i < s.len() {
        s[i] as int
    } else {
        0
    }
}

/// The number that the first `n` digits stand for.
spec fn value_of(s: Seq<u64>, n: nat) -> int
    decreases n,
{
    if n == 0 {
        0
    } else {
        value_of(s, (n - 1) as nat) + limb(s, n - 1) * unit((n - 1) as nat)
    }
}

proof fn lemma_unit(i: nat)
    ensures
        unit(i) > 0,
        unit(0) == 1,
        unit(i + 1) == 0x1_0000_0000_0000_0000 * unit(i),
{
    lemma_pow2_pos(64 * i);
    lemma2_to64();
    lemma_pow2_adds(64, 64 * i);
    assert(64 * (i + 1) == 64 + 64 * i);
    assert(pow2(64) == 0x1_0000_0000_0000_0000) by {
        lemma_pow2_adds(32, 32);
    }
}

/// The number of some digits depends on those alone.
proof fn lemma_value_same(s: Seq<u64>, t: Seq<u64>, n: nat)
    requires
        forall|i: int| 0 <= i < n ==> limb(s, i) == limb(t, i),
    ensures
        value_of(s, n) == value_of(t, n),
    decreases n,
{
    if n > 0 {
        lemma_value_same(s, t, (n - 1) as nat);
        assert(limb(s, n - 1) == limb(t, n - 1));
    }
}

/// The first `n` digits stand for less than the place value of the next.
proof fn lemma_value_bound(s: Seq<u64>, n: nat)
    ensures
        0 <= value_of(s, n) < unit(n),
    decreases n,
{
    lemma_unit(n);
    if n > 0 {
        let k = (n - 1) as nat;
        lemma_value_bound(s, k);
        lemma_unit(k);
        let (l, u) = (limb(s, n - 1), unit(k));
        assert(0 <= l * u && l * u <= 0xffff_ffff_ffff_ffff * u) by (nonlinear_arith)
            requires
                0 <= l <= 0xffff_ffff_ffff_ffff,
                u > 0,
        ;
    }
}

/// Digits beyond the highest add nothing.
proof fn lemma_value_beyond(s: Seq<u64>, n: nat)
    requires
        n >= s.len(),
    ensures
        value_of(s, n) == value_of(s, s.len()),
    decreases n,
{
    if n > s.len() {
        lemma_value_beyond(s, (n - 1) as nat);
        assert(0 * unit((n - 1) as nat) == 0) by (nonlinear_arith);
    }
}

/// Digits moved up stand for a multiple.
proof fn lemma_shifted(s: Seq<u64>, t: Seq<u64>, whole: nat, n: nat)
    requires
        s.len() == whole + t.len(),
        n <= t.len(),
        forall|k: int| 0 <= k < whole ==> #[trigger] s[k] == 0,
        forall|k: int| 0 <= k < t.len() ==> #[trigger] t[k] == s[whole + k],
    ensures
        value_of(s, whole + n) == value_of(t, n) * unit(whole),
    decreases n,
{
    if n == 0 {
        lemma_zeros(s, whole);
        assert(0 * unit(whole) == 0) by (nonlinear_arith);
    } else {
        let k = (n - 1) as nat;
        lemma_shifted(s, t, whole, k);
        assert(t[k as int] == s[(whole + k) as int]);
        assert(limb(s, (whole + k) as int) == limb(t, k as int));
        lemma_pow2_adds(64 * whole, 64 * k);
        assert(64 * (whole + k) == 64 * whole + 64 * k);
        let (v, l, a, b) = (value_of(t, k), limb(t, k as int), unit(whole), unit(k));
        assert(v * a + l * (a * b) == (v + l * b) * a) by (nonlinear_arith);
    }
}

/// Zeros stand for nothing.
proof fn lemma_zeros(s: Seq<u64>, n: nat)
    requires
        n <= s.len(),
        forall|k: int| 0 <= k < n ==> #[trigger] s[k] == 0,
    ensures
        value_of(s, n) == 0,
    decreases n,
{
    if n > 0 {
        lemma_zeros(s, (n - 1) as nat);
        assert(s[n - 1] == 0);
        assert(0 * unit((n - 1) as nat) == 0) by (nonlinear_arith);
    }
}

impl Big {
    /// The number.
    pub(crate) closed spec fn value(&self) -> int {
        value_of(self.limbs@, self.limbs@.len())
    }

    /// A number is not negative.
    pub(crate) proof fn lemma_not_negative(&self)
        ensures
            self.value() >= 0,
    {
        lemma_value_bound(self.limbs@, self.limbs@.len());
    }

    /// A small number.
    pub(crate) fn of(x: u64) -> (r: Big)
        ensures
            r.value() == x,
    {
        let mut limbs: Vec<u64> = Vec::new();
        limbs.push(x);
        proof {
            lemma_unit(0);
            reveal_with_fuel(value_of, 2);
            assert(limb(limbs@, 0) == x);
            let (y, u) = (x as int, unit(0));
            assert(y * u == y) by (nonlinear_arith)
                requires
                    u == 1,
            ;
        }
        Big { limbs }
    }

    /// The number times `k`, plus `c`.
    pub(crate) fn times_plus(&self, k: u64, c: u64) -> (r: Big)
        ensures
            r.value() == self.value() * k + c,
    {
        let a = &self.limbs;
        let mut out: Vec<u64> = Vec::new();
        let mut carry: u64 = c;
        let mut i: usize = 0;
        proof {
            lemma_unit(0);
            assert(0 * k == 0) by (nonlinear_arith);
        }
        while i < a.len()
            invariant
                i <= a@.len(),
                out@.len() == i,
                value_of(out@, i as nat) + carry * unit(i as nat) == value_of(a@, i as nat) * k + c,
            decreases a@.len() - i,
        {
            let x = a[i];
            proof {
                assert(0 <= x * k <= 0xffff_ffff_ffff_ffff * 0xffff_ffff_ffff_ffff) by (nonlinear_arith)
                    requires
                        0 <= x <= 0xffff_ffff_ffff_ffff,
                        0 <= k <= 0xffff_ffff_ffff_ffff,
                ;
            }
            let t: u128 = (x as u128) * (k as u128) + (carry as u128);
            let low: u64 = (t % 0x1_0000_0000_0000_0000) as u64;
            let high: u64 = (t / 0x1_0000_0000_0000_0000) as u64;
            let ghost before = out@;
            out.push(low);
            proof {
                let u = unit(i as nat);
                lemma_unit(i as nat);
                lemma_value_same(before, out@, i as nat);
                assert(limb(out@, i as int) == low);
                assert(limb(a@, i as int) == x);
                let (va, vo, kk, cc, lo, hi, cy, xx) = (
                    value_of(a@, i as nat),
                    value_of(before, i as nat),
                    k as int,
                    c as int,
                    low as int,
                    high as int,
                    carry as int,
                    x as int,
                );
                let big = 0x1_0000_0000_0000_0000int;
                assert(lo + hi * big == xx * kk + cy);
                assert(vo + lo * u + hi * (big * u) == (va + xx * u) * kk + cc) by (nonlinear_arith)
                    requires
                        lo + hi * big == xx * kk + cy,
                        vo + cy * u == va * kk + cc,
                ;
            }
            carry = high;
            i = i + 1;
        }
        if carry > 0 {
            let ghost before = out@;
            out.push(carry);
            proof {
                lemma_value_same(before, out@, i as nat);
                assert(limb(out@, i as int) == carry);
            }
        } else {
            assert(0 * unit(i as nat) == 0) by (nonlinear_arith);
        }
        Big { limbs: out }
    }

    /// The number times 2 to the power `n`.
    pub(crate) fn shifted(&self, n: u32) -> (r: Big)
        ensures
            r.value() == self.value() * pow2(n as nat),
    {
        let whole: u32 = n / 64;
        let part: u32 = n % 64;
        let factor: u64 = 1u64 << part;
        proof {
            lemma2_to64();
            lemma2_to64_rest();
            lemma_pow2_strictly_increases(part as nat, 64);
            assert(pow2(64) == 0x1_0000_0000_0000_0000) by {
                lemma_pow2_adds(32, 32);
            }
            vstd::bits::lemma_u64_shl_is_mul(1, part as u64);
        }
        let low = self.times_plus(factor, 0);
        let mut limbs: Vec<u64> = Vec::new();
        let mut i: u32 = 0;
        while i < whole
            invariant
                i <= whole,
                limbs@.len() == i,
                forall|k: int| 0 <= k < i ==> #[trigger] limbs@[k] == 0,
            decreases whole - i,
        {
            limbs.push(0);
            i = i + 1;
        }
        let mut j: usize = 0;
        while j < low.limbs.len()
            invariant
                j <= low.limbs@.len(),
                limbs@.len() == whole + j,
                forall|k: int| 0 <= k < whole ==> #[trigger] limbs@[k] == 0,
                forall|k: int| 0 <= k < j ==> #[trigger] low.limbs@[k] == limbs@[whole + k],
            decreases low.limbs@.len() - j,
        {
            limbs.push(low.limbs[j]);
            j = j + 1;
        }
        proof {
            lemma_shifted(limbs@, low.limbs@, whole as nat, low.limbs@.len());
            let (v, a, b) = (self.value(), pow2(part as nat) as int, unit(whole as nat));
            lemma_pow2_adds(part as nat, 64 * whole as nat);
            assert(part + 64 * whole == n);
            assert((v * a + 0) * b == v * (a * b)) by (nonlinear_arith);
        }
        Big { limbs }
    }

    /// How the number compares with another.
    pub(crate) fn compare(&self, other: &Big) -> (r: Comparison)
        ensures
            r == Comparison::Less <==> self.value() < other.value(),
            r == Comparison::Equal <==> self.value() == other.value(),
            r == Comparison::Greater <==> self.value() > other.value(),
    {
        let a = &self.limbs;
        let b = &other.limbs;
        let n = if a.len() > b.len() {
            a.len()
        } else {
            b.len()
        };
        proof {
            lemma_value_beyond(a@, n as nat);
            lemma_value_beyond(b@, n as nat);
        }
        let mut i = n;
        while i > 0
            invariant
                i <= n,
                self.value() - value_of(a@, i as nat) == other.value() - value_of(b@, i as nat),
            decreases i,
        {
            i = i - 1;
            let x: u64 = if i < a.len() {
                a[i]
            } else {
                0
            };
            let y: u64 = if i < b.len() {
                b[i]
            } else {
                0
            };
            proof {
                assert(limb(a@, i as int) == x);
                assert(limb(b@, i as int) == y);
                lemma_value_bound(a@, i as nat);
                lemma_value_bound(b@, i as nat);
                let (u, xx, yy) = (unit(i as nat), x as int, y as int);
                lemma_unit(i as nat);
                if x < y {
                    assert(xx * u + u <= yy * u) by (nonlinear_arith)
                        requires
                            xx + 1 <= yy,
                            u > 0,
                    ;
                } else if y < x {
                    assert(yy * u + u <= xx * u) by (nonlinear_arith)
                        requires
                            yy + 1 <= xx,
                            u > 0,
                    ;
                }
            }
            if x < y {
                return Comparison::Less;
            }
            if y < x {
                return Comparison::Greater;
            }
        }
        Comparison::Equal
    }
}

}
