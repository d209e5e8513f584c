//! Finite binary64 numbers, kept as integers.
//!
//! Every finite double is a whole multiple of 2^-1074. That multiple is the view of a
//! [`Double`]: the number 1 is viewed as 2^1074. Each operation is exact up to the
//! rounding of its one result to the nearest double, ties to even.

use vstd::arithmetic::div_mod::*;
use vstd::arithmetic::mul::*;
use vstd::arithmetic::power2::*;
use vstd::prelude::*;

use crate::number::{push_decimal, push_low_digits};

verus! {

/// The number 1, in multiples of 2^-1074.
pub open spec fn one() -> nat {
    pow2(1074)
}

/// The integer nearest to `n / d`, the even one of two that are equally near.
pub open spec fn nearest_even(n: nat, d: nat) -> nat
    recommends
        d > 0,
{
    let q = n / d;
    let r = n % d;
    if 2 * r < d || (2 * r == d && q % 2 == 0) {
        q
    } else {
        q + 1
    }
}

/// The double nearest to `n / d`, counted in multiples of 2^-1074. Up to 2^53 every multiple
/// is a double; beyond, the doubles are twice those of half the size.
pub open spec fn round(n: nat, d: nat) -> nat
    recommends
        d > 0,
    decreases n - d,
{
    if d == 0 || n < d * 0x20_0000_0000_0000 {
        nearest_even(n, d)
    } else {
        2 * round(n, 2 * d)
    }
}

/// `round` on a numerator of either sign.
pub open spec fn round_signed(n: int, d: nat) -> int {
    if n < 0 {
        -(round((-n) as nat, d) as int)
    } else {
        round(n as nat, d) as int
    }
}

/// The double nearest to a whole number.
pub open spec fn whole(n: nat) -> int {
    round(n * one(), 1) as int
}

/// The double nearest to a sum of doubles.
pub open spec fn sum(a: int, b: int) -> int {
    round_signed(a + b, 1)
}

/// The double nearest to a difference of doubles.
pub open spec fn difference(a: int, b: int) -> int {
    round_signed(a - b, 1)
}

/// The double nearest to a product of doubles.
pub open spec fn product(a: int, b: int) -> int {
    round_signed(a * b, one())
}

/// The double nearest to a quotient of doubles, the second of which is positive.
pub open spec fn quotient(a: int, b: int) -> int {
    round_signed(a * one(), b as nat)
}

/// Rounding drops the `k` lowest bits of a quotient that has `53 + k` of them.
proof fn lemma_round_drops(n: nat, d: nat, k: nat)
    requires
        d > 0,
        n < d * pow2(k) * 0x20_0000_0000_0000,
        k > 0 ==> n >= d * pow2(k) * 0x10_0000_0000_0000,
    ensures
        round(n, d) == nearest_even(n, d * pow2(k)) * pow2(k),
    decreases k,
{
    lemma2_to64();
    lemma_pow2_pos(k);
    if k == 0 {
        assert(d * pow2(0) == d);
    } else {
        let j = (k - 1) as nat;
        lemma_pow2_unfold(k);
        lemma_pow2_pos(j);
        assert(d * pow2(k) == (2 * d) * pow2(j)) by (nonlinear_arith)
            requires
                pow2(k) == 2 * pow2(j),
        ;
        assert(d * pow2(k) * 0x10_0000_0000_0000 >= d * 0x20_0000_0000_0000) by (nonlinear_arith)
            requires
                pow2(k) == 2 * pow2(j),
                pow2(j) >= 1,
        ;
        lemma_round_drops(n, 2 * d, j);
        assert(nearest_even(n, d * pow2(k)) * pow2(k) == 2 * (nearest_even(n, d * pow2(k)) * pow2(
            j,
        ))) by (nonlinear_arith)
            requires
                pow2(k) == 2 * pow2(j),
        ;
    }
}

/// A common factor leaves the quotient alone and multiplies the remainder.
proof fn lemma_scale(x: nat, y: nat, c: nat)
    requires
        y > 0,
        c > 0,
    ensures
        (x * c) / (y * c) == x / y,
        (x * c) % (y * c) == (x % y) * c,
{
    lemma_fundamental_div_mod(x as int, y as int);
    let q = x / y;
    let r = x % y;
    assert(x * c == q * (y * c) + r * c) by (nonlinear_arith)
        requires
            x == y * q + r,
    ;
    assert(0 <= r * c < y * c) by (nonlinear_arith)
        requires
            0 <= r < y,
            c > 0,
    ;
    lemma_fundamental_div_mod_converse((x * c) as int, (y * c) as int, q as int, (r * c) as int);
}

/// A finite double: `mantissa * 2^exponent`, negated if `negative`.
#[derive(Clone, Copy, Debug)]
pub struct Double {
    pub negative: bool,
    pub mantissa: u64,
    pub exponent: i32,
}

impl Double {
    /// Zero has one representation; any other number has all 53 bits of its mantissa,
    /// and is neither subnormal nor near overflow.
    pub open spec fn wf(self) -> bool {
        if self.mantissa == 0 {
            !self.negative && self.exponent == 0
        } else {
            &&& 0x10_0000_0000_0000 <= self.mantissa < 0x20_0000_0000_0000
            &&& -1000 <= self.exponent <= 900
        }
    }

    /// The absolute value, in multiples of 2^-1074.
    pub open spec fn magnitude(self) -> nat {
        self.mantissa as nat * pow2((self.exponent + 1074) as nat)
    }
}

impl View for Double {
    type V = int;

    open spec fn view(&self) -> int {
        if self.negative {
            -(self.magnitude() as int)
        } else {
            self.magnitude() as int
        }
    }
}

/// Two to the power of `k`.
fn power(k: u32) -> (res: u128)
    requires
        k < 127,
    ensures
        res == pow2(k as nat),
        0 < res < 0x8000_0000_0000_0000_0000_0000_0000_0000,
{
    proof {
        lemma2_to64();
    }
    let mut res: u128 = 1;
    let mut i: u32 = 0;
    while i < k
        invariant
            i <= k < 127,
            res == pow2(i as nat),
            res <= 0x4000_0000_0000_0000_0000_0000_0000_0000,
        decreases k - i,
    {
        proof {
            lemma_pow2_unfold((i + 1) as nat);
            lemma_pow2_small((i + 1) as nat);
        }
        res = res * 2;
        i = i + 1;
    }
    proof {
        lemma_pow2_pos(k as nat);
    }
    res
}

/// Powers of two below 2^127.
proof fn lemma_pow2_small(k: nat)
    requires
        k <= 126,
    ensures
        pow2(k) <= pow2(126) == 0x4000_0000_0000_0000_0000_0000_0000_0000,
{
    lemma2_to64();
    lemma2_to64_rest();
    lemma_pow2_adds(63, 63);
    if k < 126 {
        lemma_pow2_strictly_increases(k, 126);
    }
    assert(0x8000_0000_0000_0000nat * 0x8000_0000_0000_0000nat
        == 0x4000_0000_0000_0000_0000_0000_0000_0000nat) by (nonlinear_arith);
}

/// Splitting a quotient once more: by `w` after `u`.
proof fn lemma_split_quotient(n: nat, u: nat, w: nat)
    requires
        u > 0,
        w > 0,
    ensures
        n / (u * w) == (n / u) / w,
        n % (u * w) == u * ((n / u) % w) + n % u,
{
    let q = n / u;
    let p = n % u;
    lemma_fundamental_div_mod(n as int, u as int);
    lemma_fundamental_div_mod(q as int, w as int);
    let t = q / w;
    let r = q % w;
    assert(n == t * (u * w) + (u * r + p)) by (nonlinear_arith)
        requires
            n == u * q + p,
            q == w * t + r,
    ;
    assert(0 <= u * r + p < u * w) by (nonlinear_arith)
        requires
            0 <= p < u,
            0 <= r < w,
            u > 0,
    ;
    lemma_fundamental_div_mod_converse(n as int, (u * w) as int, t as int, (u * r + p) as int);
}

/// How a quotient rounds, told by its quotient and remainder by `u` alone.
proof fn lemma_nearest_by_parts(n: nat, u: nat, half: nat)
    requires
        u > 0,
        half > 0,
    ensures
        ({
            let w = 2 * half;
            let top = (n / u) / w;
            let r = (n / u) % w;
            let sticky = n % u != 0;
            let up = r > half || (r == half && (sticky || top % 2 == 1));
            nearest_even(n, u * w) == top + (if up { 1int } else { 0int })
        }),
{
    let w = 2 * half;
    let q = n / u;
    let p = n % u;
    let top = q / w;
    let r = q % w;
    lemma_split_quotient(n, u, w);
    lemma_fundamental_div_mod(n as int, u as int);
    lemma_mod_bound(n as int, u as int);
    assert(u * w == 2 * (u * half)) by (nonlinear_arith)
        requires
            w == 2 * half,
    ;
    if r < half {
        assert(2 * (u * r + p) < 2 * (u * half)) by (nonlinear_arith)
            requires
                r + 1 <= half,
                p < u,
        ;
    } else if r == half {
        assert(u * r == u * half);
    } else {
        assert(2 * (u * r + p) > 2 * (u * half)) by (nonlinear_arith)
            requires
                r >= half + 1,
                p >= 0,
                u > 0,
        ;
    }
}

/// The double nearest to `n / d`, given the quotient `q` of `n` by `d * 2^(e + 1074)` and
/// whether that division left a remainder.
fn assemble(q: u128, sticky: bool, e: i32, Ghost(n): Ghost<nat>, Ghost(d): Ghost<nat>) -> (res:
    Double)
    requires
        d > 0,
        0x20_0000_0000_0000 <= q < 0x4000_0000_0000_0000_0000_0000_0000_0000,
        -1000 <= e <= 800,
        q == n / (d * pow2((e + 1074) as nat)),
        sticky == (n % (d * pow2((e + 1074) as nat)) != 0),
    ensures
        res.wf(),
        !res.negative,
        res@ == round(n, d),
        res.mantissa > 0,
        e < res.exponent <= e + 74,
        q < 0x40_0000_0000_0000 ==> res.exponent <= e + 2,
        forall|k: nat|
            #![trigger pow2(k)]
            q < pow2(k) && 54 <= k < 127 ==> res.exponent <= e + k - 52,
        forall|k: nat|
            #![trigger pow2(k)]
            pow2(k) <= q && 53 <= k < 127 ==> res.exponent >= e + k - 52,
{
    let mut unit: u128 = 2;
    let mut s: i32 = 1;
    proof {
        lemma2_to64();
    }
    while q / unit >= 0x20_0000_0000_0000
        invariant
            1 <= s <= 73,
            unit > 0,
            unit == pow2(s as nat),
            0x20_0000_0000_0000 <= q < 0x4000_0000_0000_0000_0000_0000_0000_0000,
            q >= unit * 0x10_0000_0000_0000,
        decreases 128 - s,
    {
        proof {
            lemma_pow2_unfold((s + 1) as nat);
            lemma_fundamental_div_mod(q as int, unit as int);
            assert(q >= unit * 0x20_0000_0000_0000) by (nonlinear_arith)
                requires
                    q == unit * (q / unit) + q % unit,
                    q % unit >= 0,
                    q / unit >= 0x20_0000_0000_0000,
            ;
            if s >= 73 {
                lemma_pow2_adds(73, 53);
                lemma_pow2_small(126);
                lemma2_to64_rest();
            }
        }
        unit = unit * 2;
        s = s + 1;
    }
    let top = q / unit;
    let r = q % unit;
    let half = unit / 2;
    let up = r > half || (r == half && (sticky || top % 2 == 1));
    let m: u128 = if up {
        top + 1
    } else {
        top
    };
    let ghost base = (e + 1074) as nat;
    let ghost k = (base + s) as nat;
    proof {
        lemma_pow2_pos(base);
        lemma_pow2_adds(base, s as nat);
        let u = d * pow2(base);
        assert(u > 0) by (nonlinear_arith)
            requires
                d > 0,
                pow2(base) > 0,
                u == d * pow2(base),
        ;
        lemma_pow2_unfold(s as nat);
        lemma_nearest_by_parts(n, u, half as nat);
        lemma_split_quotient(n, u, unit as nat);
        assert(u * unit == d * pow2(k)) by (nonlinear_arith)
            requires
                u == d * pow2(base),
                pow2(k) == pow2(base) * unit,
        ;
        let big = d * pow2(k);
        assert(big > 0) by (nonlinear_arith)
            requires
                u > 0,
                unit > 0,
                big == u * unit,
        ;
        assert(nearest_even(n, big) == m);
        lemma_fundamental_div_mod(q as int, unit as int);
        assert(top >= 0x10_0000_0000_0000) by (nonlinear_arith)
            requires
                q == unit * top + r,
                r < unit,
                q >= unit * 0x10_0000_0000_0000,
                unit > 0,
        ;
        assert(n / big == top);
        lemma_fundamental_div_mod(n as int, big as int);
        lemma_mod_bound(n as int, big as int);
        assert(n < big * 0x20_0000_0000_0000 && n >= big * 0x10_0000_0000_0000) by (nonlinear_arith)
            requires
                n == big * top + n % big,
                0 <= n % big < big,
                0x10_0000_0000_0000 <= top < 0x20_0000_0000_0000,
        ;
        lemma_round_drops(n, d, k);
        assert(round(n, d) == m * pow2(k));
        lemma_pow2_unfold(k + 1);
        assert(0x20_0000_0000_0000 * pow2(k) == 0x10_0000_0000_0000 * pow2(k + 1));
        assert(q < unit * 0x20_0000_0000_0000) by (nonlinear_arith)
            requires
                q == unit * top + r,
                r < unit,
                top + 1 <= 0x20_0000_0000_0000,
        ;
        lemma2_to64_rest();
        lemma_pow2_adds(s as nat, 52);
        lemma_pow2_adds(s as nat, 53);
        assert forall|j: nat|
            #![trigger pow2(j)]
            q < pow2(j) && 54 <= j < 127 implies s + 53 <= j by {
            if j <= s + 52 {
                if j < s + 52 {
                    lemma_pow2_strictly_increases(j, (s + 52) as nat);
                }
            }
        }
        assert forall|j: nat|
            #![trigger pow2(j)]
            pow2(j) <= q && 53 <= j < 127 implies s + 52 >= j by {
            if j >= s + 53 {
                if j > s + 53 {
                    lemma_pow2_strictly_increases((s + 53) as nat, j);
                }
            }
        }
        if q < 0x40_0000_0000_0000 {
            if s >= 2 {
                assert(unit >= 4) by {
                    lemma_pow2_adds(2, (s - 2) as nat);
                    lemma_pow2_pos((s - 2) as nat);
                }
            }
        }
    }
    if m == 0x20_0000_0000_0000 {
        Double { negative: false, mantissa: 0x10_0000_0000_0000, exponent: e + s + 1 }
    } else {
        Double { negative: false, mantissa: m as u64, exponent: e + s }
    }
}

/// Nothing rounds to nothing.
proof fn lemma_round_zero(d: nat)
    requires
        d > 0,
    ensures
        round(0, d) == 0,
{
    lemma_div_basics(d as int);
    lemma_small_mod(0, d);
    assert(0nat / d == 0);
}

/// A double rounds to itself.
proof fn lemma_round_exact(x: Double)
    requires
        x.wf(),
    ensures
        round(x.magnitude(), 1) == x.magnitude(),
{
    if x.mantissa == 0 {
        lemma_round_zero(1);
    } else {
        let k = (x.exponent + 1074) as nat;
        lemma_pow2_pos(k);
        let m = x.mantissa as nat;
        let n = m * pow2(k);
        assert(1 * pow2(k) == pow2(k));
        assert(n < pow2(k) * 0x20_0000_0000_0000 && n >= pow2(k) * 0x10_0000_0000_0000)
            by (nonlinear_arith)
            requires
                n == m * pow2(k),
                pow2(k) > 0,
                0x10_0000_0000_0000 <= m < 0x20_0000_0000_0000,
        ;
        lemma_round_drops(n, 1, k);
        lemma_div_multiples_vanish(m as int, pow2(k) as int);
        lemma_mod_multiples_basic(m as int, pow2(k) as int);
        assert(n == pow2(k) * m) by (nonlinear_arith)
            requires
                n == m * pow2(k),
        ;
    }
}

impl Double {
    /// The number 0.
    pub fn zero() -> (res: Double)
        ensures
            res.wf(),
            res@ == 0,
            res.mantissa == 0,
    {
        Double { negative: false, mantissa: 0, exponent: 0 }
    }

    /// The double nearest to a whole number.
    pub fn from_u64(n: u64) -> (res: Double)
        ensures
            res.wf(),
            !res.negative,
            res@ == whole(n as nat),
            n == 0 <==> res.mantissa == 0,
            n > 0 ==> -52 <= res.exponent <= 12,
            forall|k: nat|
                #![trigger pow2(k)]
                k <= 64 && 0 < n < pow2(k) ==> res.exponent <= k - 52,
            forall|k: nat|
                #![trigger pow2(k)]
                k < 64 && 0 < n && pow2(k) <= n ==> res.exponent >= k - 52,
    {
        if n == 0 {
            proof {
                lemma_round_zero(1);
            }
            return Double::zero();
        }
        let q: u128 = n as u128 * 0x40_0000_0000_0000;
        proof {
            lemma2_to64();
            lemma2_to64_rest();
            lemma_pow2_adds(54, 1020);
            lemma_pow2_adds(54, 64);
            lemma_pow2_pos(1020);
            let x = n as nat * one();
            assert(x == q as nat * pow2(1020)) by (nonlinear_arith)
                requires
                    x == n as nat * one(),
                    one() == pow2(54) * pow2(1020),
                    q == n * pow2(54),
            ;
            lemma_div_multiples_vanish(q as int, pow2(1020) as int);
            lemma_mod_multiples_basic(q as int, pow2(1020) as int);
            assert(x == pow2(1020) * q) by (nonlinear_arith)
                requires
                    x == q as nat * pow2(1020),
            ;
            assert(1 * pow2(1020) == pow2(1020));
            assert(q < pow2(118)) by (nonlinear_arith)
                requires
                    q == n * pow2(54),
                    n < pow2(64),
                    pow2(118) == pow2(54) * pow2(64),
                    pow2(54) > 0,
            ;
            assert(pow2(54) <= q);
            lemma_pow2_strictly_increases(118, 126);
            lemma_pow2_small(126);
        }
        let res = assemble(q, false, -54, Ghost(n as nat * one()), Ghost(1));
        proof {
            assert forall|k: nat|
                #![trigger pow2(k)]
                k <= 64 && 0 < n < pow2(k) implies res.exponent <= k - 52 by {
                lemma_pow2_adds(k, 54);
                assert(q < pow2(k + 54)) by (nonlinear_arith)
                    requires
                        q == n * 0x40_0000_0000_0000,
                        pow2(k + 54) == pow2(k) * 0x40_0000_0000_0000,
                        n < pow2(k),
                ;
            }
            assert forall|k: nat|
                #![trigger pow2(k)]
                k < 64 && pow2(k) <= n implies res.exponent >= k - 52 by {
                lemma_pow2_adds(k, 54);
                assert(pow2(k + 54) <= q) by (nonlinear_arith)
                    requires
                        q == n * 0x40_0000_0000_0000,
                        pow2(k + 54) == pow2(k) * 0x40_0000_0000_0000,
                        pow2(k) <= n,
                ;
            }
        }
        res
    }

    /// The number 1.
    pub fn unity() -> (res: Double)
        ensures
            res.wf(),
            !res.negative,
            res.mantissa > 0,
            res@ == whole(1),
            -52 <= res.exponent <= -51,
    {
        proof {
            lemma2_to64();
        }
        Double::from_u64(1)
    }

    /// The number 100.
    pub fn hundred() -> (res: Double)
        ensures
            res.wf(),
            !res.negative,
            res.mantissa > 0,
            res@ == whole(100),
            -46 <= res.exponent <= -45,
    {
        proof {
            lemma2_to64();
        }
        Double::from_u64(100)
    }

    /// The same number with the sign of another.
    fn with_sign(self, negative: bool) -> (res: Double)
        requires
            self.wf(),
            self.mantissa > 0,
        ensures
            res.wf(),
            res == (Double { negative, ..self }),
            res@ == (if negative {
                -(self.magnitude() as int)
            } else {
                self.magnitude() as int
            }),
    {
        Double { negative, mantissa: self.mantissa, exponent: self.exponent }
    }

    /// The quotient of two doubles.
    pub fn over(self, other: Double) -> (res: Double)
        requires
            self.wf(),
            other.wf(),
            other.mantissa > 0,
            !other.negative,
            -800 <= self.exponent - other.exponent <= 800,
        ensures
            res.wf(),
            res@ == quotient(self@, other@),
            res.negative == self.negative,
            res.mantissa == 0 <==> self.mantissa == 0,
            self.mantissa > 0 ==> self.exponent - other.exponent - 53 <= res.exponent
                <= self.exponent - other.exponent - 51,
    {
        proof {
            lemma_pow2_pos((other.exponent + 1074) as nat);
            assert(other.magnitude() > 0) by (nonlinear_arith)
                requires
                    other.magnitude() == other.mantissa as nat * pow2(
                        (other.exponent + 1074) as nat,
                    ),
                    other.mantissa > 0,
                    pow2((other.exponent + 1074) as nat) > 0,
            ;
        }
        if self.mantissa == 0 {
            proof {
                lemma_round_zero(other.magnitude());
            }
            return Double::zero();
        }
        let x: u128 = self.mantissa as u128 * 0x1_0000_0000_0000_0000;
        let y: u128 = other.mantissa as u128;
        let q: u128 = x / y;
        let e: i32 = self.exponent - other.exponent - 64;
        let ghost n = self.magnitude() * one();
        let ghost d = other.magnitude();
        proof {
            lemma2_to64();
            lemma2_to64_rest();
            lemma_pow2_adds(1, 64);
            lemma_fundamental_div_mod(x as int, y as int);
            lemma_mod_bound(x as int, y as int);
            assert(0x8000_0000_0000_0000 <= q < 0x2_0000_0000_0000_0000) by (nonlinear_arith)
                requires
                    x == y * q + x % y,
                    0 <= x % y < y,
                    0x10_0000_0000_0000 <= y < 0x20_0000_0000_0000,
                    0x10_0000_0000_0000 * 0x1_0000_0000_0000_0000 <= x < 0x20_0000_0000_0000
                        * 0x1_0000_0000_0000_0000,
            ;
            assert(pow2(63) <= q < pow2(65));
            // n and d * 2^(e + 1074) share a power of two; without it they are x and y.
            let a = (self.exponent + 1074) as nat;
            let b = (other.exponent + 1074) as nat;
            let c = (e + 1074) as nat;
            let f = (b + c) as nat;
            assert(f + 64 == a + 1074);
            lemma_pow2_adds(b, c);
            lemma_pow2_adds(f, 64);
            lemma_pow2_adds(a, 1074);
            lemma_pow2_pos(f);
            assert(d * pow2(c) == y as nat * pow2(f)) by (nonlinear_arith)
                requires
                    d == y as nat * pow2(b),
                    pow2(f) == pow2(b) * pow2(c),
            ;
            assert(n == x as nat * pow2(f)) by (nonlinear_arith)
                requires
                    n == (self.mantissa as nat * pow2(a)) * pow2(1074),
                    x == self.mantissa as nat * pow2(64),
                    pow2(f) * pow2(64) == pow2(a) * pow2(1074),
            ;
            lemma_scale(x as nat, y as nat, pow2(f));
            let r = (x % y) as nat;
            assert(r * pow2(f) != 0 <==> r != 0) by (nonlinear_arith)
                requires
                    pow2(f) > 0,
            ;
            assert(self@ * one() == (if self.negative {
                -(n as int)
            } else {
                n as int
            })) by (nonlinear_arith)
                requires
                    n == self.magnitude() * one(),
                    self@ == (if self.negative {
                        -(self.magnitude() as int)
                    } else {
                        self.magnitude() as int
                    }),
            ;
            assert(n > 0) by (nonlinear_arith)
                requires
                    n == x as nat * pow2(f),
                    x > 0,
                    pow2(f) > 0,
            ;
        }
        assemble(q, x % y != 0, e, Ghost(n), Ghost(d)).with_sign(self.negative)
    }

    /// The product of two doubles, the second of which is not negative.
    pub fn times(self, other: Double) -> (res: Double)
        requires
            self.wf(),
            other.wf(),
            !other.negative,
            -900 <= self.exponent + other.exponent <= 700,
        ensures
            res.wf(),
            res@ == product(self@, other@),
            res.mantissa == 0 <==> self.mantissa == 0 || other.mantissa == 0,
            res.mantissa > 0 ==> res.negative == self.negative,
            res.mantissa > 0 ==> self.exponent + other.exponent + 52 <= res.exponent
                <= self.exponent + other.exponent + 54,
    {
        proof {
            lemma_pow2_pos(1074);
        }
        if self.mantissa == 0 || other.mantissa == 0 {
            proof {
                lemma_round_zero(one());
                lemma_magnitudes(self, other);
                lemma_magnitudes(other, self);
                assert(self@ * other@ == 0) by (nonlinear_arith)
                    requires
                        self@ == 0 || other@ == 0,
                ;
            }
            return Double::zero();
        }
        let x: u128 = self.mantissa as u128;
        let y: u128 = other.mantissa as u128;
        proof {
            assert(0x10_0000_0000_0000 * 0x10_0000_0000_0000 <= x * y < 0x20_0000_0000_0000
                * 0x20_0000_0000_0000) by (nonlinear_arith)
                requires
                    0x10_0000_0000_0000 <= x < 0x20_0000_0000_0000,
                    0x10_0000_0000_0000 <= y < 0x20_0000_0000_0000,
            ;
        }
        let q: u128 = x * y;
        let e: i32 = self.exponent + other.exponent;
        let ghost n = self.magnitude() * other.magnitude();
        proof {
            lemma2_to64();
            lemma2_to64_rest();
            lemma_pow2_adds(52, 52);
            lemma_pow2_adds(53, 53);
            assert(pow2(104) <= q < pow2(106));
            lemma_pow2_small(126);
            lemma_pow2_strictly_increases(106, 126);
            let a = (self.exponent + 1074) as nat;
            let b = (other.exponent + 1074) as nat;
            let c = (e + 1074) as nat;
            lemma_pow2_adds(a, b);
            lemma_pow2_adds(1074, c);
            let unit = pow2(a + b);
            assert(one() * pow2(c) == unit);
            lemma_pow2_pos(a + b);
            assert(n == unit * q) by (nonlinear_arith)
                requires
                    n == (x as nat * pow2(a)) * (y as nat * pow2(b)),
                    q == x * y,
                    unit == pow2(a) * pow2(b),
            ;
            assert(n == q * unit) by (nonlinear_arith)
                requires
                    n == unit * q,
            ;
            lemma_div_multiples_vanish(q as int, unit as int);
            lemma_mod_multiples_basic(q as int, unit as int);
            assert(self@ * other@ == (if self.negative {
                -(n as int)
            } else {
                n as int
            })) by (nonlinear_arith)
                requires
                    n == self.magnitude() * other.magnitude(),
                    other@ == other.magnitude(),
                    self@ == (if self.negative {
                        -(self.magnitude() as int)
                    } else {
                        self.magnitude() as int
                    }),
            ;
            assert(n > 0) by (nonlinear_arith)
                requires
                    n == q * unit,
                    q > 0,
                    unit > 0,
            ;
        }
        assemble(q, false, e, Ghost(n), Ghost(one())).with_sign(self.negative)
    }

    /// Whether a double is less than another.
    pub fn less(self, other: Double) -> (res: bool)
        requires
            self.wf(),
            other.wf(),
        ensures
            res == (self@ < other@),
    {
        proof {
            lemma_magnitudes(self, other);
            lemma_magnitudes(other, self);
        }
        if self.negative != other.negative {
            self.negative
        } else if self.negative {
            other.smaller(self)
        } else {
            self.smaller(other)
        }
    }

    /// Whether the absolute value of a double is less than that of another.
    fn smaller(self, other: Double) -> (res: bool)
        requires
            self.wf(),
            other.wf(),
        ensures
            res == (self.magnitude() < other.magnitude()),
    {
        proof {
            lemma_magnitudes(self, other);
            lemma_magnitudes(other, self);
        }
        if self.mantissa == 0 || other.mantissa == 0 {
            self.mantissa == 0 && other.mantissa != 0
        } else if self.exponent != other.exponent {
            self.exponent < other.exponent
        } else {
            self.mantissa < other.mantissa
        }
    }
}

/// The order of absolute values goes by the exponent, then by the mantissa.
pub proof fn lemma_magnitudes(x: Double, y: Double)
    requires
        x.wf(),
        y.wf(),
    ensures
        x.magnitude() == 0 <==> x.mantissa == 0,
        x.mantissa > 0 && y.mantissa > 0 && x.exponent < y.exponent ==> x.magnitude()
            < y.magnitude(),
        x.exponent == y.exponent ==> (x.magnitude() < y.magnitude() <==> x.mantissa < y.mantissa),
{
    let a = (x.exponent + 1074) as nat;
    let b = (y.exponent + 1074) as nat;
    lemma_pow2_pos(a);
    assert(x.magnitude() == 0 <==> x.mantissa == 0) by (nonlinear_arith)
        requires
            x.magnitude() == x.mantissa as nat * pow2(a),
            pow2(a) > 0,
    ;
    if x.exponent == y.exponent {
        assert(x.magnitude() < y.magnitude() <==> x.mantissa < y.mantissa) by (nonlinear_arith)
            requires
                x.magnitude() == x.mantissa as nat * pow2(a),
                y.magnitude() == y.mantissa as nat * pow2(a),
                pow2(a) > 0,
        ;
    } else if x.mantissa > 0 && y.mantissa > 0 && x.exponent < y.exponent {
        let t = (b - a - 1) as nat;
        lemma_pow2_adds(a + 1, t);
        lemma_pow2_unfold(a + 1);
        lemma_pow2_pos(t);
        assert(pow2(b) >= 2 * pow2(a)) by (nonlinear_arith)
            requires
                pow2(b) == pow2(a + 1) * pow2(t),
                pow2(a + 1) == 2 * pow2(a),
                pow2(t) >= 1,
        ;
        assert(x.magnitude() < y.magnitude()) by (nonlinear_arith)
            requires
                x.magnitude() == x.mantissa as nat * pow2(a),
                y.magnitude() == y.mantissa as nat * pow2(b),
                pow2(b) >= 2 * pow2(a),
                pow2(a) > 0,
                x.mantissa < 0x20_0000_0000_0000,
                y.mantissa >= 0x10_0000_0000_0000,
        ;
    }
}

/// The sign of a double is that of its value.
pub proof fn lemma_sign(x: Double)
    requires
        x.wf(),
    ensures
        x.negative <==> x@ < 0,
        x.mantissa == 0 <==> x@ == 0,
{
    lemma_magnitudes(x, x);
}

/// A double whose exponent is more than 64 below is less than one part in 256 of the last
/// place of the other.
proof fn lemma_far_below(hi: Double, lo: Double)
    requires
        hi.wf(),
        lo.wf(),
        hi.mantissa > 0,
        lo.mantissa > 0,
        hi.exponent - lo.exponent > 64,
    ensures
        0 < lo.magnitude() < pow2((hi.exponent + 1066) as nat),
        hi.magnitude() == (hi.mantissa as nat * 256) * pow2((hi.exponent + 1066) as nat),
{
    let a = (hi.exponent + 1066) as nat;
    let b = (lo.exponent + 1074) as nat;
    lemma2_to64();
    lemma2_to64_rest();
    lemma_pow2_adds(a, 8);
    assert(hi.magnitude() == (hi.mantissa as nat * 256) * pow2(a)) by (nonlinear_arith)
        requires
            hi.magnitude() == hi.mantissa as nat * pow2(a + 8),
            pow2(a + 8) == pow2(a) * 256,
    ;
    lemma_magnitudes(lo, hi);
    lemma_pow2_adds(b, 53);
    lemma_pow2_pos(b);
    assert(lo.magnitude() < pow2(b + 53)) by (nonlinear_arith)
        requires
            lo.magnitude() == lo.mantissa as nat * pow2(b),
            pow2(b + 53) == pow2(b) * 0x20_0000_0000_0000,
            lo.mantissa < 0x20_0000_0000_0000,
            pow2(b) > 0,
    ;
    if b + 53 < a {
        lemma_pow2_strictly_increases(b + 53, a);
    }
}

/// Two mantissas brought to the lower of two exponents.
proof fn lemma_align(hi: Double, lo: Double)
    requires
        hi.wf(),
        lo.wf(),
        hi.mantissa > 0,
        lo.mantissa > 0,
        0 <= hi.exponent - lo.exponent <= 64,
    ensures
        ({
            let diff = (hi.exponent - lo.exponent) as nat;
            let x = hi.mantissa as nat * pow2(diff);
            &&& hi.magnitude() == x * pow2((lo.exponent + 1074) as nat)
            &&& pow2(52 + diff) <= x < pow2(53 + diff)
            &&& 0x10_0000_0000_0000 <= x < 0x20_0000_0000_0000_0000_0000_0000_0000
        }),
{
    let diff = (hi.exponent - lo.exponent) as nat;
    let b = (lo.exponent + 1074) as nat;
    let m = hi.mantissa as nat;
    lemma2_to64();
    lemma2_to64_rest();
    lemma_pow2_pos(diff);
    lemma_pow2_adds(b, diff);
    lemma_pow2_adds(52, diff);
    lemma_pow2_adds(53, diff);
    assert(m * pow2(b + diff) == (m * pow2(diff)) * pow2(b)) by (nonlinear_arith)
        requires
            pow2(b + diff) == pow2(b) * pow2(diff),
    ;
    assert(pow2(52 + diff) <= m * pow2(diff) < pow2(53 + diff)) by (nonlinear_arith)
        requires
            pow2(52 + diff) == 0x10_0000_0000_0000 * pow2(diff),
            pow2(53 + diff) == 0x20_0000_0000_0000 * pow2(diff),
            0x10_0000_0000_0000 <= m < 0x20_0000_0000_0000,
            pow2(diff) > 0,
    ;
    lemma_pow2_adds(53, 64);
    if diff < 64 {
        lemma_pow2_strictly_increases(53 + diff, 117);
    }
    if diff > 0 {
        lemma_pow2_strictly_increases(52, 52 + diff);
    }
}

/// A quotient by a power of two that leaves `r`.
proof fn lemma_quotient(q: nat, r: nat, k: nat)
    requires
        r < pow2(k),
    ensures
        (q * pow2(k) + r) / (1 * pow2(k)) == q,
        (q * pow2(k) + r) % (1 * pow2(k)) == r,
{
    lemma_pow2_pos(k);
    lemma_fundamental_div_mod_converse(
        (q * pow2(k) + r) as int,
        pow2(k) as int,
        q as int,
        r as int,
    );
}

/// The sum of two positive doubles, the first of the higher exponent.
fn sum_ordered(hi: Double, lo: Double) -> (res: Double)
    requires
        hi.wf(),
        lo.wf(),
        hi.mantissa > 0,
        lo.mantissa > 0,
        lo.exponent <= hi.exponent <= 700,
        -900 <= lo.exponent,
    ensures
        res.wf(),
        !res.negative,
        res.mantissa > 0,
        res@ == round(hi.magnitude() + lo.magnitude(), 1),
        hi.exponent - 7 <= res.exponent <= hi.exponent + 2,
{
    let diff: i32 = hi.exponent - lo.exponent;
    let ghost n = hi.magnitude() + lo.magnitude();
    if diff <= 64 {
        let unit: u128 = power(diff as u32);
        proof {
            lemma_align(hi, lo);
        }
        let q: u128 = hi.mantissa as u128 * unit + lo.mantissa as u128;
        proof {
            let b = (lo.exponent + 1074) as nat;
            let x = hi.mantissa as nat * pow2(diff as nat);
            assert(n == q as nat * pow2(b)) by (nonlinear_arith)
                requires
                    n == x * pow2(b) + lo.mantissa as nat * pow2(b),
                    q == x + lo.mantissa,
            ;
            lemma_pow2_pos(b);
            lemma_quotient(q as nat, 0, b);
            lemma_pow2_unfold((54 + diff) as nat);
            lemma2_to64();
            lemma2_to64_rest();
            lemma_pow2_adds(53, diff as nat);
            lemma_pow2_pos(diff as nat);
            assert(pow2((53 + diff) as nat) >= 0x20_0000_0000_0000) by (nonlinear_arith)
                requires
                    pow2((53 + diff) as nat) == 0x20_0000_0000_0000 * pow2(diff as nat),
                    pow2(diff as nat) >= 1,
            ;
            assert(q < pow2((54 + diff) as nat));
            if diff > 0 {
                assert(pow2((52 + diff) as nat) <= q);
            }
        }
        assemble(q, false, lo.exponent, Ghost(n), Ghost(1))
    } else {
        let q: u128 = hi.mantissa as u128 * 256;
        proof {
            lemma_far_below(hi, lo);
            lemma_quotient(q as nat, lo.magnitude(), (hi.exponent + 1066) as nat);
            lemma2_to64();
            lemma2_to64_rest();
            assert(pow2(60) <= q < pow2(61));
        }
        assemble(q, true, hi.exponent - 8, Ghost(n), Ghost(1))
    }
}

/// The difference of two positive doubles, the first the greater.
fn difference_ordered(hi: Double, lo: Double) -> (res: Double)
    requires
        hi.wf(),
        lo.wf(),
        lo.mantissa > 0,
        hi.magnitude() > lo.magnitude(),
        hi.exponent <= 700,
        -900 <= lo.exponent,
    ensures
        res.wf(),
        !res.negative,
        res.mantissa > 0,
        res@ == round((hi.magnitude() - lo.magnitude()) as nat, 1),
        lo.exponent - 53 <= res.exponent <= hi.exponent + 1,
{
    proof {
        lemma_magnitudes(hi, lo);
        lemma_magnitudes(lo, hi);
    }
    let diff: i32 = hi.exponent - lo.exponent;
    let ghost n = (hi.magnitude() - lo.magnitude()) as nat;
    if diff <= 64 {
        let unit: u128 = power(diff as u32);
        let ghost b = (lo.exponent + 1074) as nat;
        let ghost x = hi.mantissa as nat * pow2(diff as nat);
        proof {
            lemma_align(hi, lo);
            lemma_pow2_pos(b);
            assert(x > lo.mantissa) by (nonlinear_arith)
                requires
                    x * pow2(b) > lo.mantissa as nat * pow2(b),
                    pow2(b) > 0,
            ;
        }
        let q: u128 = hi.mantissa as u128 * unit - lo.mantissa as u128;
        proof {
            lemma2_to64();
            lemma2_to64_rest();
            assert(n == q as nat * pow2(b)) by (nonlinear_arith)
                requires
                    n == x * pow2(b) - lo.mantissa as nat * pow2(b),
                    q == x - lo.mantissa,
            ;
        }
        if q < 0x20_0000_0000_0000 {
            let q2: u128 = q * 0x40_0000_0000_0000;
            proof {
                let c = (b - 54) as nat;
                lemma_pow2_adds(c, 54);
                assert(n == q2 as nat * pow2(c)) by (nonlinear_arith)
                    requires
                        n == q as nat * pow2(b),
                        pow2(b) == pow2(c) * 0x40_0000_0000_0000,
                        q2 == q * 0x40_0000_0000_0000,
                ;
                lemma_pow2_pos(c);
                lemma_quotient(q2 as nat, 0, c);
                lemma_pow2_adds(53, 54);
                assert(q2 < pow2(107));
            }
            assemble(q2, false, lo.exponent - 54, Ghost(n), Ghost(1))
        } else {
            proof {
                lemma_quotient(q as nat, 0, b);
                assert(q < pow2((53 + diff) as nat));
            }
            assemble(q, false, lo.exponent, Ghost(n), Ghost(1))
        }
    } else {
        let q: u128 = hi.mantissa as u128 * 256 - 1;
        proof {
            lemma_far_below(hi, lo);
            let k = (hi.exponent + 1066) as nat;
            let r = (pow2(k) - lo.magnitude()) as nat;
            assert(n == q as nat * pow2(k) + r) by (nonlinear_arith)
                requires
                    n == (hi.mantissa as nat * 256) * pow2(k) - lo.magnitude(),
                    q == hi.mantissa * 256 - 1,
                    r == pow2(k) - lo.magnitude(),
            ;
            lemma_quotient(q as nat, r, k);
            lemma2_to64();
            lemma2_to64_rest();
            assert(pow2(59) <= q < pow2(61));
        }
        assemble(q, true, hi.exponent - 8, Ghost(n), Ghost(1))
    }
}

impl Double {
    /// The sum of two doubles that are not negative.
    pub fn plus(self, other: Double) -> (res: Double)
        requires
            self.wf(),
            other.wf(),
            !self.negative,
            !other.negative,
            -900 <= self.exponent <= 700,
            -900 <= other.exponent <= 700,
        ensures
            res.wf(),
            !res.negative,
            res@ == sum(self@, other@),
            res.mantissa == 0 <==> self.mantissa == 0 && other.mantissa == 0,
            self.exponent - 7 <= res.exponent || other.exponent - 7 <= res.exponent,
            res.exponent <= self.exponent + 2 || res.exponent <= other.exponent + 2,
    {
        proof {
            lemma_round_exact(self);
            lemma_round_exact(other);
            lemma_magnitudes(self, other);
            lemma_magnitudes(other, self);
        }
        if self.mantissa == 0 {
            other
        } else if other.mantissa == 0 {
            self
        } else if self.exponent < other.exponent {
            sum_ordered(other, self)
        } else {
            sum_ordered(self, other)
        }
    }

    /// The difference of two doubles that are not negative.
    pub fn minus(self, other: Double) -> (res: Double)
        requires
            self.wf(),
            other.wf(),
            !self.negative,
            !other.negative,
            -900 <= self.exponent <= 700,
            -900 <= other.exponent <= 700,
        ensures
            res.wf(),
            res@ == difference(self@, other@),
            res.mantissa == 0 || self.exponent - 53 <= res.exponent || other.exponent - 53
                <= res.exponent,
            res.mantissa == 0 || res.exponent <= self.exponent + 1 || res.exponent
                <= other.exponent + 1,
    {
        proof {
            lemma_round_exact(self);
            lemma_round_exact(other);
            lemma_round_zero(1);
            lemma_magnitudes(self, other);
            lemma_magnitudes(other, self);
        }
        if other.mantissa == 0 {
            self
        } else if self.mantissa == 0 {
            other.with_sign(true)
        } else if self.smaller(other) {
            difference_ordered(other, self).with_sign(true)
        } else if other.smaller(self) {
            difference_ordered(self, other)
        } else {
            Double::zero()
        }
    }
}

/// Ten to the power of `k`.
pub open spec fn ten(k: nat) -> nat
    decreases k,
{
    if k == 0 {
        1
    } else {
        10 * ten((k - 1) as nat)
    }
}

/// A number with a fixed count of decimal places: the nearest such number, the one with
/// an even last digit of two that are equally near.
pub open spec fn fixed(v: int, places: nat) -> Seq<char> {
    let size = (if v < 0 {
        -v
    } else {
        v
    }) as nat;
    let w = nearest_even(size * ten(places), one());
    let sign = if v < 0 {
        seq!['-']
    } else {
        Seq::empty()
    };
    let fraction = if places == 0 {
        Seq::empty()
    } else {
        seq!['.'] + crate::number::low_digits(w, places)
    };
    sign + crate::number::decimal(w / ten(places)) + fraction
}

/// What `x * 2^-s` rounds to, told over 2^1074.
proof fn lemma_nearest_shifted(x: nat, s: nat)
    requires
        s <= 1074,
    ensures
        nearest_even(x * pow2((1074 - s) as nat), one()) == nearest_even(x, pow2(s)),
{
    let c = pow2((1074 - s) as nat);
    lemma_pow2_adds(s, (1074 - s) as nat);
    lemma_pow2_pos(s);
    lemma_pow2_pos((1074 - s) as nat);
    let y = pow2(s);
    lemma_scale(x, y, c);
    let r = x % y;
    assert(2 * (r * c) < y * c <==> 2 * r < y) by (nonlinear_arith)
        requires
            c > 0,
    ;
    assert(2 * (r * c) == y * c <==> 2 * r == y) by (nonlinear_arith)
        requires
            c > 0,
    ;
}

impl Double {
    /// The nearest whole number of `1 / scale`.
    fn scaled(self, scale: u64) -> (res: u128)
        requires
            self.wf(),
            self.exponent <= 60,
            1 <= scale <= 100,
        ensures
            res == nearest_even(self.magnitude() * scale as nat, one()),
    {
        proof {
            lemma_pow2_pos(1074);
            lemma2_to64();
            lemma2_to64_rest();
            assert(self.mantissa * scale < 0x1000_0000_0000_0000) by (nonlinear_arith)
                requires
                    self.mantissa < 0x20_0000_0000_0000,
                    scale <= 100,
            ;
        }
        let x: u128 = self.mantissa as u128 * scale as u128;
        let ghost n = self.magnitude() * scale as nat;
        if self.exponent >= 0 {
            let unit: u128 = power(self.exponent as u32);
            proof {
                let e = self.exponent as nat;
                lemma_pow2_adds(1074, e);
                if e < 60 {
                    lemma_pow2_strictly_increases(e, 60);
                }
                assert(x * unit <= 0x1000_0000_0000_0000 * 0x1000_0000_0000_0000)
                    by (nonlinear_arith)
                    requires
                        x < 0x1000_0000_0000_0000,
                        unit <= 0x1000_0000_0000_0000,
                ;
                let y = (x * unit) as nat;
                assert(n == y * one()) by (nonlinear_arith)
                    requires
                        n == (self.mantissa as nat * pow2(1074 + e)) * scale as nat,
                        pow2(1074 + e) == one() * unit,
                        x == self.mantissa * scale,
                        y == x * unit,
                ;
                lemma_div_multiples_vanish(y as int, one() as int);
                lemma_mod_multiples_basic(y as int, one() as int);
                assert(n == one() * y) by (nonlinear_arith)
                    requires
                        n == y * one(),
                ;
            }
            x * unit
        } else {
            let s: i32 = -self.exponent;
            proof {
                let c = (1074 - s) as nat;
                assert(n == x as nat * pow2(c)) by (nonlinear_arith)
                    requires
                        n == (self.mantissa as nat * pow2(c)) * scale as nat,
                        x == self.mantissa * scale,
                ;
                lemma_nearest_shifted(x as nat, s as nat);
                lemma_pow2_pos(s as nat);
            }
            if s > 64 {
                proof {
                    lemma_pow2_strictly_increases(64, s as nat);
                    lemma_small_mod(x as nat, pow2(s as nat));
                    lemma_basic_div(x as int, pow2(s as nat) as int);
                }
                0
            } else {
                let unit: u128 = power(s as u32);
                let q: u128 = x / unit;
                let r: u128 = x % unit;
                proof {
                    lemma_div_nonincreasing(x as int, unit as int);
                    if s < 64 {
                        lemma_pow2_strictly_increases(s as nat, 64);
                    }
                }
                if 2 * r < unit || (2 * r == unit && q % 2 == 0) {
                    q
                } else {
                    q + 1
                }
            }
        }
    }

    /// Appends the number with a fixed count of decimal places.
    pub fn push_fixed(self, out: &mut String, places: u32)
        requires
            self.wf(),
            self.exponent <= 60,
            places <= 2,
        ensures
            final(out)@ == old(out)@ + fixed(self@, places as nat),
    {
        let ghost before = out@;
        let scale: u64 = if places == 0 {
            1
        } else if places == 1 {
            10
        } else {
            100
        };
        proof {
            reveal_with_fuel(ten, 3);
            lemma_magnitudes(self, self);
        }
        let w = self.scaled(scale);
        if self.negative {
            out.push('-');
        }
        push_decimal(out, w / scale as u128);
        if places > 0 {
            out.push('.');
            push_low_digits(out, w, places);
        }
        assert(out@ =~= before + fixed(self@, places as nat));
    }

    /// The bits of the number in the binary64 interchange format.
    pub open spec fn bits(self) -> int {
        let sign = if self.negative {
            0x8000_0000_0000_0000int
        } else {
            0
        };
        if self.mantissa == 0 {
            sign
        } else {
            sign + (self.exponent + 1075) * 0x10_0000_0000_0000 + (self.mantissa
                - 0x10_0000_0000_0000)
        }
    }

    /// The number in the binary64 interchange format.
    pub fn to_bits(self) -> (res: u64)
        requires
            self.wf(),
        ensures
            res == self.bits(),
    {
        let sign: u64 = if self.negative {
            0x8000_0000_0000_0000
        } else {
            0
        };
        if self.mantissa == 0 {
            sign
        } else {
            sign + (self.exponent + 1075) as u64 * 0x10_0000_0000_0000 + (self.mantissa
                - 0x10_0000_0000_0000)
        }
    }
}

/// Only the ratio counts: a common factor changes no rounding.
pub proof fn lemma_round_scale(n: nat, d: nat, c: nat)
    requires
        d > 0,
        c > 0,
    ensures
        round(n * c, d * c) == round(n, d),
    decreases n - d,
{
    assert(d * c > 0) by (nonlinear_arith)
        requires
            d > 0,
            c > 0,
    ;
    assert(n * c < (d * c) * 0x20_0000_0000_0000 <==> n < d * 0x20_0000_0000_0000)
        by (nonlinear_arith)
        requires
            c > 0,
    ;
    if n < d * 0x20_0000_0000_0000 {
        lemma_scale(n, d, c);
        let r = n % d;
        assert(2 * (r * c) < d * c <==> 2 * r < d) by (nonlinear_arith)
            requires
                c > 0,
        ;
        assert(2 * (r * c) == d * c <==> 2 * r == d) by (nonlinear_arith)
            requires
                c > 0,
        ;
    } else {
        lemma_round_scale(n, 2 * d, c);
        assert((2 * d) * c == 2 * (d * c)) by (nonlinear_arith);
    }
}

/// Rounding a quotient to an integer keeps the order.
proof fn lemma_nearest_monotone(n: nat, d: nat, m: nat, e: nat)
    requires
        d > 0,
        e > 0,
        n * e <= m * d,
    ensures
        nearest_even(n, d) <= nearest_even(m, e),
{
    let q = n / d;
    let r = n % d;
    let p = m / e;
    let t = m % e;
    lemma_fundamental_div_mod(n as int, d as int);
    lemma_fundamental_div_mod(m as int, e as int);
    lemma_mod_bound(n as int, d as int);
    lemma_mod_bound(m as int, e as int);
    assert(q <= p) by (nonlinear_arith)
        requires
            n == d * q + r,
            m == e * p + t,
            n * e <= m * d,
            0 <= r,
            0 <= t < e,
            d > 0,
            e > 0,
    ;
    if q == p {
        assert(r * e <= t * d) by (nonlinear_arith)
            requires
                n == d * q + r,
                m == e * p + t,
                n * e <= m * d,
                q == p,
        ;
        // If the first is at or above the middle, so is the second.
        assert(2 * r > d ==> 2 * t > e) by (nonlinear_arith)
            requires
                r * e <= t * d,
                d > 0,
                e > 0,
        ;
        assert(2 * r == d ==> 2 * t >= e) by (nonlinear_arith)
            requires
                r * e <= t * d,
                d > 0,
                e > 0,
        ;
    }
}

/// A quotient below 2^53 rounds to at most 2^53, and one from there on to at least that.
proof fn lemma_round_around(n: nat, d: nat)
    requires
        d > 0,
    ensures
        n < d * 0x20_0000_0000_0000 ==> round(n, d) <= 0x20_0000_0000_0000,
        n >= d * 0x20_0000_0000_0000 ==> round(n, d) >= 0x20_0000_0000_0000,
    decreases n - d,
{
    let top: nat = 0x20_0000_0000_0000;
    lemma_div_by_multiple(top as int, d as int);
    lemma_mod_multiples_basic(top as int, d as int);
    assert(nearest_even(top * d, d) == top);
    if n < d * top {
        assert(n * d <= (top * d) * d) by (nonlinear_arith)
            requires
                n < d * top,
        ;
        lemma_nearest_monotone(n, d, top * d, d);
    } else if n < (2 * d) * top {
        let half: nat = 0x10_0000_0000_0000;
        let e = 2 * d;
        lemma_div_by_multiple(half as int, e as int);
        lemma_mod_multiples_basic(half as int, e as int);
        assert(nearest_even(half * e, e) == half);
        assert(half * e <= n) by (nonlinear_arith)
            requires
                half == 0x10_0000_0000_0000,
                e == 2 * d,
                n >= d * 0x20_0000_0000_0000,
        ;
        assert((half * e) * e <= n * e) by (nonlinear_arith)
            requires
                half * e <= n,
        ;
        lemma_nearest_monotone(half * e, e, n, e);
        assert(round(n, e) == nearest_even(n, e));
    } else {
        lemma_round_around(n, 2 * d);
    }
}

/// Rounding keeps the order: the greater of two ratios does not round to the smaller double.
pub proof fn lemma_round_monotone(n: nat, d: nat, m: nat, e: nat)
    requires
        d > 0,
        e > 0,
        n * e <= m * d,
    ensures
        round(n, d) <= round(m, e),
    decreases n - d,
{
    let top: nat = 0x20_0000_0000_0000;
    lemma_round_around(n, d);
    lemma_round_around(m, e);
    if n < d * top && m < e * top {
        lemma_nearest_monotone(n, d, m, e);
    } else if n >= d * top {
        assert(m >= e * top) by (nonlinear_arith)
            requires
                n >= d * top,
                n * e <= m * d,
                d > 0,
                e > 0,
        ;
        assert(n * (2 * e) <= m * (2 * d)) by (nonlinear_arith)
            requires
                n * e <= m * d,
        ;
        lemma_round_monotone(n, 2 * d, m, 2 * e);
    }
}

/// A whole number below 2^53 times a power of two is a double.
pub proof fn lemma_round_representable(m: nat, k: nat)
    requires
        m < 0x20_0000_0000_0000,
    ensures
        round(m * pow2(k), 1) == m * pow2(k),
    decreases k,
{
    let n = m * pow2(k);
    lemma2_to64();
    lemma_pow2_pos(k);
    if n < 0x20_0000_0000_0000 {
        lemma_div_basics(n as int);
    } else {
        assert(k > 0) by {
            if k == 0 {
                assert(m * pow2(0) == m);
            }
        }
        let j = (k - 1) as nat;
        lemma_pow2_unfold(k);
        lemma_round_representable(m, j);
        lemma_round_scale(m * pow2(j), 1, 2);
        assert((m * pow2(j)) * 2 == n) by (nonlinear_arith)
            requires
                n == m * pow2(k),
                pow2(k) == 2 * pow2(j),
        ;
    }
}

/// Whole numbers below 2^53 are doubles.
pub proof fn lemma_whole_exact(n: nat)
    requires
        n < 0x20_0000_0000_0000,
    ensures
        whole(n) == n * one(),
{
    lemma_round_representable(n, 1074);
}

/// Whole numbers keep their order.
pub proof fn lemma_whole_monotone(n: nat, m: nat)
    requires
        n <= m,
    ensures
        0 <= whole(n) <= whole(m),
        n > 0 ==> whole(n) > 0,
{
    lemma_pow2_pos(1074);
    assert(n * one() <= m * one()) by (nonlinear_arith)
        requires
            n <= m,
    ;
    lemma_round_monotone(n * one(), 1, m * one(), 1);
    if n > 0 {
        lemma_whole_exact(1);
        assert(1 * one() <= n * one()) by (nonlinear_arith)
            requires
                n > 0,
        ;
        lemma_round_monotone(1 * one(), 1, n * one(), 1);
    }
}

/// A part that is not greater than the whole makes up 0 to 1 of it, and 0 to 100 per cent.
pub proof fn lemma_share_bounds(part: nat, total: nat)
    requires
        part <= total,
        total > 0,
    ensures
        0 <= quotient(whole(part), whole(total)) <= whole(1),
        0 <= product(quotient(whole(part), whole(total)), whole(100)) <= whole(100),
{
    lemma_pow2_pos(1074);
    lemma_whole_exact(1);
    lemma_whole_exact(100);
    lemma_whole_monotone(part, total);
    lemma_whole_monotone(total, total);
    let a = whole(part) as nat;
    let b = whole(total) as nat;
    let u = one();
    assert(0 <= a * u) by (nonlinear_arith);
    assert((a * u) * 1 <= u * b) by (nonlinear_arith)
        requires
            a <= b,
    ;
    lemma_round_monotone(a * u, b, u, 1);
    let x = round(a * u, b);
    assert(1 * u == u);
    let h = (100 * u) as nat;
    assert(0 <= x * h) by (nonlinear_arith);
    assert((x * h) * 1 <= h * u) by (nonlinear_arith)
        requires
            x <= u,
    ;
    lemma_round_monotone(x * h, u, h, 1);
}

/// A part that is not greater than the whole leaves 0 to 100 per cent of it.
pub proof fn lemma_rest_bounds(part: nat, total: nat)
    requires
        part <= total,
        total > 0,
    ensures
        0 <= product(difference(whole(1), quotient(whole(part), whole(total))), whole(100))
            <= whole(100),
{
    lemma_share_bounds(part, total);
    lemma_pow2_pos(1074);
    lemma_whole_exact(1);
    lemma_whole_exact(100);
    let u = one();
    let q = quotient(whole(part), whole(total));
    let rest = (u - q) as nat;
    lemma_round_monotone(rest, 1, u, 1);
    assert(u == 1 * pow2(1074));
    lemma_round_representable(1, 1074);
    let x = round(rest, 1);
    assert(x <= u);
    let h = (100 * u) as nat;
    assert(0 <= x * h) by (nonlinear_arith);
    assert((x * h) * 1 <= h * u) by (nonlinear_arith)
        requires
            x <= u,
    ;
    lemma_round_monotone(x * h, u, h, 1);
}

/// Nothing divided by a positive number is nothing.
pub proof fn lemma_zero_quotient(b: int)
    requires
        b > 0,
    ensures
        quotient(whole(0), b) == 0,
{
    lemma_whole_exact(0);
    assert(0 * one() == 0) by (nonlinear_arith);
    lemma_round_zero(b as nat);
}

/// The nearest integer is at most half a unit away.
pub proof fn lemma_nearest_even_error(n: nat, d: nat)
    requires
        d > 0,
    ensures
        2 * (nearest_even(n, d) * d - n) <= d,
        2 * (n - nearest_even(n, d) * d) <= d,
{
    lemma_fundamental_div_mod(n as int, d as int);
    let q = n / d;
    assert((q + 1) * d == q * d + d) by (nonlinear_arith);
    assert(q * d == d * q) by (nonlinear_arith);
}

/// A double is at most half a smallest unit away from what it is rounded from, or at most
/// one part in 2^53 of that.
pub proof fn lemma_round_error(n: nat, d: nat)
    requires
        d > 0,
    ensures
        ({
            let off = round(n, d) * d - n;
            ||| -(d as int) <= 2 * off <= d
            ||| -(n as int) <= 0x20_0000_0000_0000 * off <= n
        }),
    decreases n - d,
{
    if n < d * 0x20_0000_0000_0000 {
        lemma_nearest_even_error(n, d);
    } else {
        lemma_round_error(n, 2 * d);
        let r = round(n, 2 * d);
        assert((2 * r) * d == r * (2 * d)) by (nonlinear_arith);
    }
}

/// What has been rounded is a double: rounding it again changes nothing.
pub proof fn lemma_round_again(n: nat, d: nat)
    requires
        d > 0,
    ensures
        round(round(n, d), 1) == round(n, d),
{
    let (m, k) = lemma_round_form(n, d);
    lemma_round_representable(m, k);
}

/// A double is a whole number below 2^53 times a power of two.
proof fn lemma_round_form(n: nat, d: nat) -> (res: (nat, nat))
    requires
        d > 0,
    ensures
        res.0 < 0x20_0000_0000_0000,
        round(n, d) == res.0 * pow2(res.1),
    decreases n - d,
{
    lemma2_to64();
    lemma2_to64_rest();
    if n < d * 0x20_0000_0000_0000 {
        let q = nearest_even(n, d);
        lemma_fundamental_div_mod(n as int, d as int);
        assert(n / d < 0x20_0000_0000_0000) by (nonlinear_arith)
            requires
                n == d * (n / d) + n % d,
                n % d >= 0,
                n < d * 0x20_0000_0000_0000,
                d > 0,
        ;
        assert(q * pow2(0) == q);
        assert(pow2(53) == 0x20_0000_0000_0000);
        if q < 0x20_0000_0000_0000 {
            (q, 0nat)
        } else {
            assert(q == 0x20_0000_0000_0000);
            (1nat, 53nat)
        }
    } else {
        let (m, k) = lemma_round_form(n, 2 * d);
        lemma_pow2_unfold(k + 1);
        assert(2 * (m * pow2(k)) == m * pow2(k + 1)) by (nonlinear_arith)
            requires
                pow2(k + 1) == 2 * pow2(k),
        ;
        (m, k + 1)
    }
}

/// Anything is once itself, and one hundred per cent of itself; nothing is left of it then.
pub proof fn lemma_full_share(total: nat)
    requires
        total > 0,
    ensures
        quotient(whole(total), whole(total)) == whole(1),
        product(quotient(whole(total), whole(total)), whole(100)) == whole(100),
        product(difference(whole(1), quotient(whole(total), whole(total))), whole(100)) == 0,
{
    lemma_pow2_pos(1074);
    lemma_whole_exact(1);
    lemma_whole_exact(100);
    lemma_whole_monotone(total, total);
    let u = one();
    let w = whole(total) as nat;
    assert(w * u == u * w) by (nonlinear_arith);
    assert(1 * w == w);
    lemma_round_scale(u, 1, w);
    lemma_round_representable(1, 1074);
    assert(1 * pow2(1074) == u);
    let h = (100 * u) as nat;
    assert(u * h == h * u) by (nonlinear_arith);
    assert(1 * u == u);
    lemma_round_scale(h, 1, u);
    assert(h == 100 * pow2(1074));
    lemma_round_representable(100, 1074);
    lemma_round_zero(1);
    lemma_round_zero(u);
    assert(0 * (100 * u) == 0);
}

/// Nothing is no part of anything, and leaves all of it.
pub proof fn lemma_empty_share(total: nat)
    requires
        total > 0,
    ensures
        quotient(whole(0), whole(total)) == 0,
        product(quotient(whole(0), whole(total)), whole(100)) == 0,
        product(difference(whole(1), quotient(whole(0), whole(total))), whole(100)) == whole(100),
{
    lemma_pow2_pos(1074);
    lemma_whole_exact(1);
    lemma_whole_exact(100);
    lemma_whole_monotone(total, total);
    lemma_zero_quotient(whole(total));
    let u = one();
    lemma_round_representable(1, 1074);
    assert(1 * pow2(1074) == u);
    let h = (100 * u) as nat;
    assert(u * h == h * u) by (nonlinear_arith);
    assert(1 * u == u);
    lemma_round_scale(h, 1, u);
    assert(h == 100 * pow2(1074));
    lemma_round_representable(100, 1074);
    lemma_round_zero(u);
    assert(0 * (100 * u) == 0);
}

/// A larger part is no smaller share.
pub proof fn lemma_share_monotone(part: nat, more: nat, total: nat)
    requires
        part <= more,
        total > 0,
    ensures
        0 <= quotient(whole(part), whole(total)) <= quotient(whole(more), whole(total)),
        product(quotient(whole(part), whole(total)), whole(100)) <= product(
            quotient(whole(more), whole(total)),
            whole(100),
        ),
{
    lemma_pow2_pos(1074);
    lemma_whole_exact(100);
    lemma_whole_monotone(part, more);
    lemma_whole_monotone(total, total);
    let u = one();
    let a = whole(part) as nat;
    let b = whole(more) as nat;
    let d = whole(total) as nat;
    assert((a * u) * d <= (b * u) * d && a * u >= 0 && b * u >= 0) by (nonlinear_arith)
        requires
            a <= b,
            u > 0,
            d > 0,
    ;
    lemma_round_monotone(a * u, d, b * u, d);
    let x = round(a * u, d);
    let y = round(b * u, d);
    let h = (100 * u) as nat;
    assert((x * h) * u <= (y * h) * u && x * h >= 0 && y * h >= 0) by (nonlinear_arith)
        requires
            x <= y,
            h >= 0,
            u > 0,
    ;
    lemma_round_monotone(x * h, u, y * h, u);
}

/// A number is shown by the nearest of those with so many decimal places: the digits of a
/// whole number `w` of the smallest place, with a point before the last of them.
pub proof fn lemma_fixed_is_nearest(v: nat, places: nat) -> (w: nat)
    ensures
        2 * (w * one() - v * ten(places)) <= one(),
        2 * (v * ten(places) - w * one()) <= one(),
        places == 0 ==> fixed(v as int, places) == crate::number::decimal(w),
        places > 0 ==> fixed(v as int, places) == crate::number::decimal(w / ten(places)) + seq![
            '.',
        ] + crate::number::low_digits(w, places),
{
    lemma_pow2_pos(1074);
    let w = nearest_even(v * ten(places), one());
    lemma_nearest_even_error(v * ten(places), one());
    assert(w / 1 == w);
    assert(places == 0 ==> fixed(v as int, places) =~= crate::number::decimal(w));
    assert(places > 0 ==> fixed(v as int, places) =~= crate::number::decimal(w / ten(places))
        + seq!['.'] + crate::number::low_digits(w, places));
    w
}

/// A number below zero is shown as its size behind a minus sign.
pub proof fn lemma_fixed_negative(v: int, places: nat)
    requires
        v < 0,
    ensures
        fixed(v, places) == seq!['-'] + fixed(-v, places),
{
    assert(fixed(v, places) =~= seq!['-'] + fixed(-v, places));
}

/// Whole numbers are added exactly as long as their sum stays below 2^53.
pub proof fn lemma_whole_sum(n: nat, m: nat)
    requires
        n + m < 0x20_0000_0000_0000,
    ensures
        sum(whole(n), whole(m)) == whole(n + m),
{
    lemma_whole_exact(n);
    lemma_whole_exact(m);
    lemma_whole_exact(n + m);
    let u = one();
    assert(n * u + m * u == (n + m) * u) by (nonlinear_arith);
    lemma_round_again((n + m) * u, 1);
    assert(n * u >= 0 && m * u >= 0) by (nonlinear_arith);
}

} // verus!
