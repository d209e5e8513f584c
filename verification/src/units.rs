//! Sizes and rates in units that people read.

use vstd::arithmetic::div_mod::*;
use vstd::arithmetic::power2::*;
use vstd::prelude::*;

use crate::double::Double;
use crate::number::push_decimal;

verus! {

/// A number divided by 1024 until it is below 1024, four times at most, and how often.
pub open spec fn scaled_down(v: int, steps: nat) -> (int, nat)
    decreases 4 - steps,
{
    let k = crate::double::whole(1024);
    if v >= k && steps < 4 {
        scaled_down(crate::double::quotient(v, k), steps + 1)
    } else {
        (v, steps)
    }
}

/// The unit of a size that was divided `steps` times by 1024.
pub open spec fn size_unit(steps: nat) -> Seq<char> {
    if steps == 0 {
        "B"@
    } else if steps == 1 {
        "KiB"@
    } else if steps == 2 {
        "MiB"@
    } else if steps == 3 {
        "GiB"@
    } else {
        "TiB"@
    }
}

/// The unit of a rate that was divided `steps` times by 1024.
pub open spec fn rate_unit(steps: nat) -> Seq<char> {
    if steps == 0 {
        "B/s"@
    } else if steps == 1 {
        "KB/s"@
    } else if steps == 2 {
        "MB/s"@
    } else if steps == 3 {
        "GB/s"@
    } else {
        "TB/s"@
    }
}

/// A size in KiB as text: in GiB from one GiB on, in MiB below.
pub open spec fn kib_text(kib: u64) -> Seq<char> {
    let k = crate::double::whole(1024);
    let mib = crate::double::quotient(crate::double::whole(kib as nat), k);
    let gib = crate::double::quotient(mib, k);
    if gib >= crate::double::whole(1) {
        crate::double::fixed(gib, 2) + " GiB"@
    } else {
        crate::double::fixed(mib, 0) + " MiB"@
    }
}

/// A size in bytes as text: whole bytes, or one decimal place of a larger unit.
pub open spec fn size_text(bytes: u64) -> Seq<char> {
    let (v, steps) = scaled_down(crate::double::whole(bytes as nat), 0);
    if steps == 0 {
        crate::number::decimal(bytes as nat) + " "@ + size_unit(0)
    } else {
        crate::double::fixed(v, 1) + " "@ + size_unit(steps)
    }
}

/// A rate in bytes per second as text, with two decimal places; nothing is below zero.
pub open spec fn rate_text(rate: int) -> Seq<char> {
    let (v, steps) = scaled_down(
        if rate < 0 {
            0
        } else {
            rate
        },
        0,
    );
    crate::double::fixed(v, 2) + " "@ + rate_unit(steps)
}

/// Divides by 1024 until the number is below 1024, four times at most.
fn scale_down(v: Double) -> (res: (Double, usize))
    requires
        v.wf(),
        !v.negative,
        v.exponent <= 96,
    ensures
        res.0.wf(),
        res.0.exponent <= 60,
        res.1 <= 4,
        scaled_down(v@, 0) == (res.0@, res.1 as nat),
{
    proof {
        lemma2_to64();
    }
    let k = Double::from_u64(1024);
    let mut value = v;
    let mut steps: usize = 0;
    while steps < 4 && !value.less(k)
        invariant
            steps <= 4,
            k.wf(),
            k@ == crate::double::whole(1024),
            k.mantissa > 0,
            !k.negative,
            -42 <= k.exponent <= -41,
            value.wf(),
            !value.negative,
            value.exponent <= 96 - steps * 9,
            scaled_down(v@, 0) == scaled_down(value@, steps as nat),
        decreases 4 - steps,
    {
        proof {
            crate::double::lemma_sign(value);
            crate::double::lemma_sign(k);
            crate::double::lemma_magnitudes(value, k);
        }
        value = value.over(k);
        steps = steps + 1;
    }
    proof {
        crate::double::lemma_sign(value);
        crate::double::lemma_sign(k);
        crate::double::lemma_magnitudes(k, value);
    }
    (value, steps)
}

/// Writes a size in KiB.
pub fn kib_to_human(kib: u64) -> (res: String)
    ensures
        res@ == kib_text(kib),
{
    let k = Double::from_u64(1024);
    let mib = Double::from_u64(kib).over(k);
    let gib = mib.over(k);
    let mut res = String::new();
    if gib.less(Double::from_u64(1)) {
        mib.push_fixed(&mut res, 0);
        res.append(" MiB");
    } else {
        gib.push_fixed(&mut res, 2);
        res.append(" GiB");
    }
    assert(res@ =~= kib_text(kib));
    res
}

/// Writes a size in bytes.
pub fn bytes_to_human_size(bytes: u64) -> (res: String)
    ensures
        res@ == size_text(bytes),
{
    let (value, steps) = scale_down(Double::from_u64(bytes));
    let mut res = String::new();
    if steps == 0 {
        push_decimal(&mut res, bytes as u128);
    } else {
        value.push_fixed(&mut res, 1);
    }
    res.append(" ");
    if steps == 0 {
        res.append("B");
    } else if steps == 1 {
        res.append("KiB");
    } else if steps == 2 {
        res.append("MiB");
    } else if steps == 3 {
        res.append("GiB");
    } else {
        res.append("TiB");
    }
    assert(res@ =~= size_text(bytes));
    res
}

/// Writes a rate in bytes per second. The bound on the exponent takes in every rate below
/// 2^149; 64 bits of bytes in a thousandth of a second are less than 2^74.
pub fn bytes_to_human(bytes: Double) -> (res: String)
    requires
        bytes.wf(),
        bytes.negative || bytes.exponent <= 96,
    ensures
        res@ == rate_text(bytes@),
{
    let positive = if bytes.negative {
        Double::zero()
    } else {
        bytes
    };
    proof {
        crate::double::lemma_sign(bytes);
    }
    let (value, steps) = scale_down(positive);
    let mut res = String::new();
    value.push_fixed(&mut res, 2);
    res.append(" ");
    if steps == 0 {
        res.append("B/s");
    } else if steps == 1 {
        res.append("KB/s");
    } else if steps == 2 {
        res.append("MB/s");
    } else if steps == 3 {
        res.append("GB/s");
    } else {
        res.append("TB/s");
    }
    assert(res@ =~= rate_text(bytes@));
    res
}

/// A rate below zero is shown as none, whatever its size.
pub proof fn lemma_negative_rate(rate: int)
    requires
        rate < 0,
    ensures
        rate_text(rate) == "0.00 B/s"@,
{
    lemma_pow2_pos(1074);
    crate::double::lemma_whole_monotone(1024, 1024);
    reveal_with_fuel(crate::double::ten, 3);
    reveal_with_fuel(crate::number::low_digits, 3);
    assert(0 * crate::double::ten(2) == 0);
    lemma_div_basics(crate::double::one() as int);
    lemma_small_mod(0, crate::double::one());
    assert(scaled_down(0, 0) == (0int, 0nat));
    assert(crate::double::nearest_even(0, crate::double::one()) == 0);
    reveal_strlit("0.00 B/s");
    reveal_strlit(" ");
    reveal_strlit("B/s");
    assert(rate_text(rate) =~= "0.00 B/s"@);
}

/// Sizes below 1024 bytes are shown to the byte.
pub proof fn lemma_small_size(bytes: u64)
    requires
        bytes < 1024,
    ensures
        size_text(bytes) == crate::number::decimal(bytes as nat) + " "@ + "B"@,
{
    lemma_pow2_pos(1074);
    crate::double::lemma_whole_exact(bytes as nat);
    crate::double::lemma_whole_exact(1024);
    let u = crate::double::one();
    assert(bytes * u < 1024 * u) by (nonlinear_arith)
        requires
            bytes < 1024,
            u > 0,
    ;
}

/// Dividing a whole number below 2^53 by a power of two up to 2^20 is exact.
proof fn lemma_exact_quotient(n: nat, j: nat)
    requires
        n < 0x20_0000_0000_0000,
        10 <= j <= 1074,
    ensures
        crate::double::quotient((n * pow2(j)) as int, crate::double::whole(1024)) == n * pow2(
            (j - 10) as nat,
        ),
{
    let i = (j - 10) as nat;
    let u = crate::double::one();
    lemma_pow2_pos(1074);
    lemma_pow2_pos(i);
    lemma2_to64();
    lemma_pow2_adds(i, 10);
    crate::double::lemma_whole_exact(1024);
    let part = n * pow2(i);
    assert((n * pow2(j)) * u == part * (1024 * u)) by (nonlinear_arith)
        requires
            pow2(j) == pow2(i) * 1024,
            part == n * pow2(i),
    ;
    assert(1 * (1024 * u) == 1024 * u);
    crate::double::lemma_round_scale(part, 1, 1024 * u);
    crate::double::lemma_round_representable(n, i);
    assert((n * pow2(j)) * u >= 0) by (nonlinear_arith);
}

/// A size is shown in GiB from 2^20 KiB on, and in MiB below.
pub proof fn lemma_gib_from_one_gib(kib: u64)
    ensures
        ({
            let k = crate::double::whole(1024);
            let mib = crate::double::quotient(crate::double::whole(kib as nat), k);
            let gib = crate::double::quotient(mib, k);
            kib_text(kib) == (if kib >= 0x10_0000 {
                crate::double::fixed(gib, 2) + " GiB"@
            } else {
                crate::double::fixed(mib, 0) + " MiB"@
            })
        }),
{
    let u = crate::double::one();
    let k = crate::double::whole(1024);
    lemma_pow2_pos(1074);
    crate::double::lemma_whole_exact(1);
    crate::double::lemma_whole_exact(1024);
    let mib = crate::double::quotient(crate::double::whole(kib as nat), k);
    if kib >= 0x10_0000 {
        crate::double::lemma_whole_monotone(0x10_0000, kib as nat);
        crate::double::lemma_whole_exact(0x10_0000);
        lemma_exact_quotient(0x10_0000, 1074);
        lemma_exact_quotient(0x10_0000, 1064);
        lemma_pow2_adds(1054, 20);
        lemma2_to64();
        assert(0x10_0000 * pow2(1054) == u);
        lemma_quotient_monotone(
            (0x10_0000 * u) as nat,
            crate::double::whole(kib as nat) as nat,
            k as nat,
        );
        lemma_quotient_monotone((0x10_0000 * pow2(1064)) as nat, mib as nat, k as nat);
    } else {
        crate::double::lemma_whole_exact(kib as nat);
        lemma_exact_quotient(kib as nat, 1074);
        lemma_exact_quotient(kib as nat, 1064);
        lemma_pow2_adds(1054, 20);
        lemma_pow2_pos(1054);
        lemma2_to64();
        assert(kib * pow2(1054) < u) by (nonlinear_arith)
            requires
                kib < 0x10_0000,
                u == pow2(1054) * 0x10_0000,
                pow2(1054) > 0,
        ;
    }
}

/// A larger number leaves a quotient that is not smaller.
proof fn lemma_quotient_monotone(a: nat, b: nat, d: nat)
    requires
        a <= b,
        d > 0,
    ensures
        0 <= crate::double::quotient(a as int, d as int) <= crate::double::quotient(
            b as int,
            d as int,
        ),
{
    let u = crate::double::one();
    assert(0 <= a * u && (a * u) * d <= (b * u) * d) by (nonlinear_arith)
        requires
            a <= b,
            u >= 0,
            d > 0,
    ;
    assert(0 <= b * u) by (nonlinear_arith);
    crate::double::lemma_round_monotone(a * u, d, b * u, d);
}

/// Below 2^53 bytes, a size is divided exactly, once for each power of 1024 that it reaches
/// and four times at most.
proof fn lemma_scaled_down(n: nat, k: nat)
    requires
        n < 0x20_0000_0000_0000,
        k <= 4,
        k > 0 ==> n >= pow2(10 * k),
        k < 4 ==> n < pow2(10 * k + 10),
    ensures
        scaled_down(crate::double::whole(n), 0) == ((n * pow2((1074 - 10 * k) as nat)) as int, k),
{
    crate::double::lemma_whole_exact(n);
    lemma_scaled_from(n, k, 0);
}

/// The divisions that are left after `i` of them.
proof fn lemma_scaled_from(n: nat, k: nat, i: nat)
    requires
        n < 0x20_0000_0000_0000,
        i <= k <= 4,
        k > 0 ==> n >= pow2(10 * k),
        k < 4 ==> n < pow2(10 * k + 10),
    ensures
        scaled_down((n * pow2((1074 - 10 * i) as nat)) as int, i) == (
            (n * pow2((1074 - 10 * k) as nat)) as int,
            k,
        ),
    decreases k - i,
{
    let j = (1074 - 10 * i) as nat;
    let v = n * pow2(j);
    crate::double::lemma_whole_exact(1024);
    lemma2_to64();
    lemma_pow2_adds(10 * i, j);
    lemma_pow2_adds(10 * i, 10);
    lemma_pow2_pos(j);
    lemma_pow2_pos(10 * i);
    let unit = pow2(10 * i);
    let u = crate::double::one();
    assert(u == unit * pow2(j));
    if i < k {
        if 10 * i + 10 < 10 * k {
            lemma_pow2_strictly_increases(10 * i + 10, 10 * k);
        }
        assert(n >= pow2(10 * i + 10));
        assert(v >= 1024 * u) by (nonlinear_arith)
            requires
                v == n * pow2(j),
                u == unit * pow2(j),
                n >= unit * 1024,
                pow2(j) > 0,
        ;
        lemma_exact_quotient(n, j);
        assert((j - 10) as nat == (1074 - 10 * (i + 1)) as nat);
        lemma_scaled_from(n, k, i + 1);
    } else if k < 4 {
        assert(v < 1024 * u) by (nonlinear_arith)
            requires
                v == n * pow2(j),
                u == unit * pow2(j),
                n < unit * 1024,
                pow2(j) > 0,
        ;
    }
}

/// A size from 1024 bytes on is shown in the largest unit that it reaches, up to TiB, with
/// one decimal place: `w` tenths of the unit, which are at most half a tenth off.
pub proof fn lemma_size_reads_back(bytes: u64, k: nat) -> (w: nat)
    requires
        bytes < 0x20_0000_0000_0000,
        1 <= k <= 4,
        bytes >= pow2(10 * k),
        k < 4 ==> bytes < pow2(10 * k + 10),
    ensures
        2 * (w * pow2(10 * k) - 10 * bytes) <= pow2(10 * k),
        2 * (10 * bytes - w * pow2(10 * k)) <= pow2(10 * k),
        size_text(bytes) == crate::number::decimal(w / 10) + seq!['.'] + crate::number::low_digits(
            w,
            1,
        ) + seq![' '] + (if k == 1 {
            "KiB"@
        } else if k == 2 {
            "MiB"@
        } else if k == 3 {
            "GiB"@
        } else {
            "TiB"@
        }),
{
    let j = (1074 - 10 * k) as nat;
    let v = bytes as nat * pow2(j);
    lemma_scaled_down(bytes as nat, k);
    let w = crate::double::lemma_fixed_is_nearest(v, 1);
    reveal_with_fuel(crate::double::ten, 2);
    assert(crate::double::ten(1) == 10);
    lemma_pow2_adds(10 * k, j);
    lemma_pow2_pos(j);
    let unit = pow2(10 * k);
    let u = crate::double::one();
    assert(u == unit * pow2(j));
    assert(2 * (w * unit - 10 * bytes) <= unit && 2 * (10 * bytes - w * unit) <= unit)
        by (nonlinear_arith)
        requires
            2 * (w * u - v * 10) <= u,
            2 * (v * 10 - w * u) <= u,
            v == bytes * pow2(j),
            u == unit * pow2(j),
            pow2(j) > 0,
    ;
    reveal_strlit(" ");
    assert(" "@ =~= seq![' ']);
    w
}

/// Memory is shown in GiB with two decimal places from one GiB on: `w` hundredths, at most
/// half a hundredth off.
pub proof fn lemma_gib_reads_back(kib: u64) -> (w: nat)
    requires
        0x10_0000 <= kib < 0x20_0000_0000_0000,
    ensures
        2 * (w * 0x10_0000 - 100 * kib) <= 0x10_0000,
        2 * (100 * kib - w * 0x10_0000) <= 0x10_0000,
        kib_text(kib) == crate::number::decimal(w / 100) + seq!['.'] + crate::number::low_digits(
            w,
            2,
        ) + " GiB"@,
{
    lemma_gib_from_one_gib(kib);
    crate::double::lemma_whole_exact(kib as nat);
    lemma_exact_quotient(kib as nat, 1074);
    lemma_exact_quotient(kib as nat, 1064);
    let v = kib as nat * pow2(1054);
    let w = crate::double::lemma_fixed_is_nearest(v, 2);
    reveal_with_fuel(crate::double::ten, 3);
    assert(crate::double::ten(2) == 100);
    lemma_pow2_adds(20, 1054);
    lemma_pow2_pos(1054);
    lemma2_to64();
    let p = pow2(1054);
    let u = crate::double::one();
    assert(u == 0x10_0000 * p);
    assert(2 * (w * 0x10_0000 - 100 * kib) <= 0x10_0000 && 2 * (100 * kib - w * 0x10_0000)
        <= 0x10_0000) by (nonlinear_arith)
        requires
            2 * (w * u - v * 100) <= u,
            2 * (v * 100 - w * u) <= u,
            v == kib * p,
            u == 0x10_0000 * p,
            p > 0,
    ;
    w
}

/// Memory is shown in whole MiB below one GiB: `w` of them, at most half of one off.
pub proof fn lemma_mib_reads_back(kib: u64) -> (w: nat)
    requires
        kib < 0x10_0000,
    ensures
        2 * (w * 1024 - kib) <= 1024,
        2 * (kib - w * 1024) <= 1024,
        kib_text(kib) == crate::number::decimal(w) + " MiB"@,
{
    lemma_gib_from_one_gib(kib);
    crate::double::lemma_whole_exact(kib as nat);
    lemma_exact_quotient(kib as nat, 1074);
    let v = kib as nat * pow2(1064);
    let w = crate::double::lemma_fixed_is_nearest(v, 0);
    assert(crate::double::ten(0) == 1);
    lemma_pow2_adds(10, 1064);
    lemma_pow2_pos(1064);
    lemma2_to64();
    let p = pow2(1064);
    let u = crate::double::one();
    assert(u == 1024 * p);
    assert(2 * (w * 1024 - kib) <= 1024 && 2 * (kib - w * 1024) <= 1024) by (nonlinear_arith)
        requires
            2 * (w * u - v * 1) <= u,
            2 * (v * 1 - w * u) <= u,
            v == kib * p,
            u == 1024 * p,
            p > 0,
    ;
    w
}

/// A rate of whole bytes per second is shown in the largest unit that it reaches, up to
/// TB/s, with two decimal places: `w` hundredths of the unit, at most half a hundredth off.
pub proof fn lemma_rate_reads_back(bytes: u64, k: nat) -> (w: nat)
    requires
        bytes < 0x20_0000_0000_0000,
        k <= 4,
        k > 0 ==> bytes >= pow2(10 * k),
        k < 4 ==> bytes < pow2(10 * k + 10),
    ensures
        2 * (w * pow2(10 * k) - 100 * bytes) <= pow2(10 * k),
        2 * (100 * bytes - w * pow2(10 * k)) <= pow2(10 * k),
        rate_text(crate::double::whole(bytes as nat)) == crate::number::decimal(w / 100) + seq![
            '.',
        ] + crate::number::low_digits(w, 2) + seq![' '] + (if k == 0 {
            "B/s"@
        } else if k == 1 {
            "KB/s"@
        } else if k == 2 {
            "MB/s"@
        } else if k == 3 {
            "GB/s"@
        } else {
            "TB/s"@
        }),
{
    let j = (1074 - 10 * k) as nat;
    let v = bytes as nat * pow2(j);
    lemma_scaled_down(bytes as nat, k);
    crate::double::lemma_whole_monotone(0, bytes as nat);
    let w = crate::double::lemma_fixed_is_nearest(v, 2);
    reveal_with_fuel(crate::double::ten, 3);
    assert(crate::double::ten(2) == 100);
    lemma_pow2_adds(10 * k, j);
    lemma_pow2_pos(j);
    let unit = pow2(10 * k);
    let u = crate::double::one();
    assert(u == unit * pow2(j));
    assert(2 * (w * unit - 100 * bytes) <= unit && 2 * (100 * bytes - w * unit) <= unit)
        by (nonlinear_arith)
        requires
            2 * (w * u - v * 100) <= u,
            2 * (v * 100 - w * u) <= u,
            v == bytes * pow2(j),
            u == unit * pow2(j),
            pow2(j) > 0,
    ;
    reveal_strlit(" ");
    assert(" "@ =~= seq![' ']);
    w
}

} // verus!
