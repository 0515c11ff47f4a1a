//! Human-readable byte counts.
//!
//! A count of at least 1000 bytes is shown in the largest decimal unit it
//! reaches (KB up to PB), with one decimal place. The quotient is the one that
//! binary64 floating point gives: the count is rounded to the nearest double,
//! each division by 1000 is rounded to the nearest double, and the result is
//! shown rounded to the nearest tenth, ties to even. So 1150 bytes, whose
//! quotient is stored just below 1.15, shows as `1.1 KB`.
//!
//! A positive double is modelled as a pair `(m, e)` standing for `m * 2^e`,
//! with a significand `m` of exactly 53 bits: `2^52 <= m < 2^53`.
use crate::text::{decimal, decimal_text};
use vstd::prelude::*;

verus! {

/// The smallest 53-bit significand, `2^52`.
pub const SIG_LOW: u64 = 0x10_0000_0000_0000;

/// One past the largest 53-bit significand, `2^53`.
pub const SIG_LIMIT: u64 = 0x20_0000_0000_0000;

/// `2^k`.
pub open spec fn two_pow(k: nat) -> nat
    decreases k,
{
    if k == 0 {
        1
    } else {
        2 * two_pow((k - 1) as nat)
    }
}

/// `n / d` rounded to the nearest integer, ties to the even one.
pub open spec fn round_half_even(n: nat, d: nat) -> nat {
    let q = n / d;
    let r = n % d;
    if 2 * r > d || (2 * r == d && q % 2 == 1) {
        q + 1
    } else {
        q
    }
}

/// Whether `m` is a 53-bit significand.
pub open spec fn full_significand(m: nat) -> bool {
    SIG_LOW <= m < SIG_LIMIT
}

/// A nonzero `n * 2^e` below `2^53 * 2^e`, written with a full significand
/// (exactly: only zeros are shifted in).
pub open spec fn widen(n: nat, e: int) -> (nat, int)
    decreases SIG_LIMIT - n,
{
    if n == 0 || n >= SIG_LOW || n >= SIG_LIMIT {
        (n, e)
    } else {
        widen(2 * n, e - 1)
    }
}

/// How many low bits `n` must lose to fit in 53 bits.
pub open spec fn excess_bits(n: nat) -> nat
    decreases n,
{
    if n < SIG_LIMIT {
        0
    } else {
        1 + excess_bits(n / 2)
    }
}

/// A significand rounded up to `2^53` is renormalised to `2^52` with the
/// exponent raised by one.
pub open spec fn carry(q: nat, e: int) -> (nat, int) {
    if q == SIG_LIMIT {
        (SIG_LOW as nat, e + 1)
    } else {
        (q, e)
    }
}

/// The double nearest to the count `n` (ties to even), as `u64 as f64` gives.
pub open spec fn double_of(n: nat) -> (nat, int) {
    if n < SIG_LIMIT {
        widen(n, 0)
    } else {
        let k = excess_bits(n);
        carry(round_half_even(n, two_pow(k)), k as int)
    }
}

/// How far the significand is shifted before dividing by 1000 so that the
/// quotient has exactly 53 bits.
pub open spec fn pre_shift(m: nat) -> nat {
    if m * 1024 < 1000 * SIG_LIMIT {
        10
    } else {
        9
    }
}

/// The double nearest to `m * 2^e / 1000` (ties to even), as the division
/// by `1000.0` gives.
pub open spec fn divide_by_thousand(m: nat, e: int) -> (nat, int) {
    let s = pre_shift(m);
    carry(round_half_even(m * two_pow(s), 1000), e - s)
}

/// Whether `m * 2^e >= 1000`.
pub open spec fn reaches_thousand(m: nat, e: int) -> bool {
    if e >= 0 {
        m * two_pow(e as nat) >= 1000
    } else {
        m >= 1000 * two_pow((-e) as nat)
    }
}

/// `m * 2^e` in tenths, rounded to the nearest tenth, ties to even: what
/// `{:.1}` prints.
pub open spec fn tenths(m: nat, e: int) -> nat {
    if e >= 0 {
        10 * m * two_pow(e as nat)
    } else {
        round_half_even(10 * m, two_pow((-e) as nat))
    }
}

/// Divide by 1000 while the value reaches 1000 and a larger unit is left;
/// the result is the value and the index of its unit.
pub open spec fn settle(d: (nat, int), unit: nat) -> ((nat, int), nat)
    decreases 4 - unit,
{
    if unit < 4 && reaches_thousand(d.0, d.1) {
        settle(divide_by_thousand(d.0, d.1), unit + 1)
    } else {
        (d, unit)
    }
}

/// The name of the unit with index `k` (0 = KB, ..., 4 = PB).
pub open spec fn unit_name(k: nat) -> Seq<char> {
    if k == 0 {
        "KB"@
    } else if k == 1 {
        "MB"@
    } else if k == 2 {
        "GB"@
    } else if k == 3 {
        "TB"@
    } else {
        "PB"@
    }
}

/// The value shown for a count of at least 1000 bytes, and its unit.
pub open spec fn shown_value(bytes: nat) -> ((nat, int), nat) {
    let d = double_of(bytes);
    settle(divide_by_thousand(d.0, d.1), 0)
}

/// The Finder-style text of a byte count, in decimal (1000) units:
/// `"0 bytes"`, `"500 bytes"`, `"1.5 KB"`, `"2.5 GB"`.
pub open spec fn human_size_text(bytes: nat) -> Seq<char> {
    if bytes < 1000 {
        decimal(bytes) + " bytes"@
    } else {
        let (d, unit) = shown_value(bytes);
        let t = tenths(d.0, d.1);
        decimal(t / 10) + "."@ + decimal(t % 10) + " "@ + unit_name(unit)
    }
}

proof fn lemma_two_pow_monotone(a: nat, b: nat)
    requires
        a <= b,
    ensures
        1 <= two_pow(a) <= two_pow(b),
    decreases b,
{
    if b > a {
        lemma_two_pow_monotone(a, (b - 1) as nat);
    } else if a > 0 {
        lemma_two_pow_monotone(0, (a - 1) as nat);
    }
}

proof fn lemma_two_pow_adds(a: nat, b: nat)
    ensures
        two_pow(a + b) == two_pow(a) * two_pow(b),
    decreases a,
{
    if a > 0 {
        let a1 = (a - 1) as nat;
        lemma_two_pow_adds(a1, b);
        assert(a + b == a1 + b + 1);
        assert(two_pow(a1 + b + 1) == 2 * two_pow(a1 + b));
        assert(two_pow(a) == 2 * two_pow(a1));
        assert(2 * (two_pow(a1) * two_pow(b)) == (2 * two_pow(a1)) * two_pow(b)) by (nonlinear_arith);
    } else {
        assert(two_pow(0) == 1);
        assert(a + b == b);
    }
}

proof fn lemma_two_pow_square(a: nat, v: nat)
    requires
        two_pow(a) == v,
    ensures
        two_pow(a + a) == v * v,
{
    lemma_two_pow_adds(a, a);
}

proof fn lemma_two_pow_times(a: nat, b: nat, v: nat, w: nat)
    requires
        two_pow(a) == v,
        two_pow(b) == w,
    ensures
        two_pow(a + b) == v * w,
{
    lemma_two_pow_adds(a, b);
}

/// The powers of two that the conversions use.
proof fn lemma_two_pow_values()
    ensures
        two_pow(0) == 1,
        two_pow(2) == 4,
        two_pow(9) == 512,
        two_pow(10) == 1024,
        two_pow(11) == 2048,
        two_pow(12) == 4096,
        two_pow(52) == SIG_LOW,
        two_pow(110) == 0x4000_0000_0000_0000_0000_0000_0000,
{
    reveal_with_fuel(two_pow, 13);
    lemma_two_pow_square(10, 1024);
    assert(two_pow(20) == 0x10_0000);
    lemma_two_pow_square(20, 0x10_0000);
    assert(two_pow(40) == 0x100_0000_0000);
    lemma_two_pow_times(40, 12, 0x100_0000_0000, 4096);
    assert(two_pow(52) == 0x10_0000_0000_0000);
    lemma_two_pow_times(52, 2, 0x10_0000_0000_0000, 4);
    assert(two_pow(54) == 0x40_0000_0000_0000);
    lemma_two_pow_square(54, 0x40_0000_0000_0000);
    assert(two_pow(108) == 0x1000_0000_0000_0000_0000_0000_0000);
    lemma_two_pow_times(108, 2, 0x1000_0000_0000_0000_0000_0000_0000, 4);
}

/// `2^k` for `k <= 110`.
fn power_of_two(k: u32) -> (r: u128)
    requires
        k <= 110,
    ensures
        r == two_pow(k as nat),
{
    proof {
        lemma_two_pow_values();
    }
    let mut r: u128 = 1;
    let mut i: u32 = 0;
    while i < k
        invariant
            i <= k <= 110,
            r == two_pow(i as nat),
            two_pow(110) == 0x4000_0000_0000_0000_0000_0000_0000,
        decreases k - i,
    {
        proof {
            lemma_two_pow_monotone((i + 1) as nat, 110);
        }
        r = r * 2;
        i = i + 1;
    }
    r
}

/// `n / d` rounded to the nearest integer, ties to even.
fn rounded_quotient(n: u128, d: u128) -> (r: u128)
    requires
        0 < d < u128::MAX / 2,
        n < u128::MAX / 2,
    ensures
        r == round_half_even(n as nat, d as nat),
{
    let q = n / d;
    let rem = n % d;
    if 2 * rem > d || (2 * rem == d && q % 2 == 1) {
        q + 1
    } else {
        q
    }
}

/// The double nearest to the count `n`, as `n as f64` gives it.
fn count_to_double(n: u64) -> (r: (u64, i64))
    requires
        n >= 1000,
    ensures
        full_significand(r.0 as nat),
        (r.0 as nat, r.1 as int) == double_of(n as nat),
        -52 <= r.1 <= 12,
{
    proof {
        lemma_two_pow_values();
    }
    if n < SIG_LIMIT {
        let mut m: u64 = n;
        let mut e: i64 = 0;
        assert(n * two_pow(0) == n);
        while m < SIG_LOW
            invariant
                1000 <= n,
                1000 <= m < SIG_LIMIT,
                -52 <= e <= 0,
                m == n * two_pow((-e) as nat),
                two_pow(52) == SIG_LOW,
                widen(m as nat, e as int) == widen(n as nat, 0),
            decreases SIG_LIMIT - m,
        {
            proof {
                let k = (-e) as nat;
                if k >= 52 {
                    lemma_two_pow_monotone(52, k);
                    assert(n * two_pow(k) >= two_pow(k)) by (nonlinear_arith)
                        requires
                            n >= 1000,
                    ;
                }
                assert(two_pow(k + 1) == 2 * two_pow(k));
                assert(2 * (n * two_pow(k)) == n * (2 * two_pow(k))) by (nonlinear_arith);
            }
            m = m * 2;
            e = e - 1;
        }
        (m, e)
    } else {
        let mut q: u64 = n;
        let mut p: u64 = 1;
        let mut k: i64 = 0;
        while q >= SIG_LIMIT
            invariant
                0 <= k <= 11,
                p == two_pow(k as nat),
                1 <= p <= 2048,
                q as nat == n as nat / p as nat,
                SIG_LOW <= q,
                k + excess_bits(q as nat) == excess_bits(n as nat),
                two_pow(10) == 1024,
                two_pow(11) == 2048,
            decreases q,
        {
            proof {
                vstd::arithmetic::div_mod::lemma_fundamental_div_mod(n as int, p as int);
                vstd::arithmetic::div_mod::lemma_mod_pos_bound(n as int, p as int);
                assert(q * p <= n) by (nonlinear_arith)
                    requires
                        n as int == p as int * q as int + (n as int) % (p as int),
                        (n as int) % (p as int) >= 0,
                ;
                if k >= 11 {
                    lemma_two_pow_monotone(11, k as nat);
                    assert(q * p >= SIG_LIMIT * 2048) by (nonlinear_arith)
                        requires
                            q >= SIG_LIMIT,
                            p >= 2048,
                    ;
                    assert(false);
                }
                lemma_two_pow_monotone(k as nat, 10);
                vstd::arithmetic::div_mod::lemma_div_denominator(n as int, p as int, 2);
                assert(two_pow((k + 1) as nat) == 2 * two_pow(k as nat));
            }
            q = q / 2;
            p = p * 2;
            k = k + 1;
        }
        proof {
            vstd::arithmetic::div_mod::lemma_fundamental_div_mod(n as int, p as int);
            vstd::arithmetic::div_mod::lemma_mod_pos_bound(n as int, p as int);
            assert(q * p <= n) by (nonlinear_arith)
                requires
                    n as int == p as int * q as int + (n as int) % (p as int),
                    (n as int) % (p as int) >= 0,
            ;
        }
        let rem = n - q * p;
        let m = if 2 * (rem as u128) > p as u128 || (2 * rem == p && q % 2 == 1) {
            q + 1
        } else {
            q
        };
        if m == SIG_LIMIT {
            (SIG_LOW, k + 1)
        } else {
            (m, k)
        }
    }
}

/// The double nearest to `m * 2^e / 1000`, as dividing by `1000.0` gives it.
fn thousandth(m: u64, e: i64) -> (r: (u64, i64))
    requires
        full_significand(m as nat),
        -200 <= e <= 100,
    ensures
        full_significand(r.0 as nat),
        (r.0 as nat, r.1 as int) == divide_by_thousand(m as nat, e as int),
        e - 10 <= r.1 <= e - 8,
{
    proof {
        lemma_two_pow_values();
    }
    let wide = m as u128;
    let scaled: u128;
    let s: i64;
    if wide * 1024 < 1000 * (SIG_LIMIT as u128) {
        scaled = wide * 1024;
        s = 10;
    } else {
        scaled = wide * 512;
        s = 9;
    }
    assert(1000 * SIG_LOW <= scaled < 1000 * SIG_LIMIT);
    assert(SIG_LOW <= scaled / 1000 < SIG_LIMIT) by (nonlinear_arith)
        requires
            1000 * SIG_LOW <= scaled < 1000 * SIG_LIMIT,
    ;
    let q = rounded_quotient(scaled, 1000);
    if q == SIG_LIMIT as u128 {
        (SIG_LOW, e - s + 1)
    } else {
        (q as u64, e - s)
    }
}

/// Whether `m * 2^e >= 1000`.
fn at_least_thousand(m: u64, e: i64) -> (r: bool)
    requires
        full_significand(m as nat),
        -110 <= e,
    ensures
        r == reaches_thousand(m as nat, e as int),
{
    if e >= 0 {
        proof {
            lemma_two_pow_monotone(0, e as nat);
            assert(m * two_pow(e as nat) >= m) by (nonlinear_arith)
                requires
                    two_pow(e as nat) >= 1,
            ;
        }
        true
    } else {
        let p = power_of_two((-e) as u32);
        proof {
            lemma_two_pow_monotone((-e) as nat, 110);
            lemma_two_pow_values();
        }
        (m as u128) >= 1000 * p
    }
}

/// `m * 2^e` in tenths, rounded to the nearest tenth, ties to even.
fn tenths_of(m: u64, e: i64) -> (r: u128)
    requires
        full_significand(m as nat),
        -110 <= e <= 12,
    ensures
        r == tenths(m as nat, e as int),
{
    if e >= 0 {
        let p = power_of_two(e as u32);
        proof {
            lemma_two_pow_monotone(e as nat, 12);
            lemma_two_pow_values();
            assert(10 * m * p <= 10 * SIG_LIMIT * 4096) by (nonlinear_arith)
                requires
                    m < SIG_LIMIT,
                    p <= 4096,
            ;
        }
        10 * (m as u128) * p
    } else {
        let p = power_of_two((-e) as u32);
        proof {
            lemma_two_pow_monotone((-e) as nat, 110);
            lemma_two_pow_values();
        }
        rounded_quotient(10 * (m as u128), p)
    }
}

/// The text of the unit with index `k`.
fn unit_text(k: usize) -> (r: &'static str)
    requires
        k <= 4,
    ensures
        r@ == unit_name(k as nat),
{
    if k == 0 {
        "KB"
    } else if k == 1 {
        "MB"
    } else if k == 2 {
        "GB"
    } else if k == 3 {
        "TB"
    } else {
        "PB"
    }
}

/// Format a byte count the way the Finder does, using decimal (1000) units:
/// `"0 bytes"`, `"500 bytes"`, `"1.5 KB"`, `"2.5 GB"`.
pub fn human_size(bytes: u64) -> (r: String)
    ensures
        r@ == human_size_text(bytes as nat),
{
    if bytes < 1000 {
        let mut s = decimal_text(bytes as u128);
        s.append(" bytes");
        return s;
    }
    let first = count_to_double(bytes);
    let mut d = thousandth(first.0, first.1);
    let ghost start = (d.0 as nat, d.1 as int);
    let mut unit: usize = 0;
    loop
        invariant
            unit <= 4,
            full_significand(d.0 as nat),
            -52 - 10 * (unit + 1) <= d.1 <= 12 - 8 * (unit + 1),
            settle((d.0 as nat, d.1 as int), unit as nat) == settle(start, 0),
            start == divide_by_thousand(double_of(bytes as nat).0, double_of(bytes as nat).1),
        ensures
            unit <= 4,
            full_significand(d.0 as nat),
            -110 <= d.1 <= 12,
            settle(start, 0) == ((d.0 as nat, d.1 as int), unit as nat),
            start == divide_by_thousand(double_of(bytes as nat).0, double_of(bytes as nat).1),
        decreases 4 - unit,
    {
        if unit >= 4 {
            break;
        }
        if !at_least_thousand(d.0, d.1) {
            break;
        }
        d = thousandth(d.0, d.1);
        unit = unit + 1;
    }
    let t = tenths_of(d.0, d.1);
    let mut s = decimal_text(t / 10);
    s.append(".");
    let frac = decimal_text(t % 10);
    s.append(frac.as_str());
    s.append(" ");
    s.append(unit_text(unit));
    s
}

proof fn lemma_settle_stops(d: (nat, int), unit: nat)
    requires
        unit <= 4,
    ensures
        settle(d, unit).1 <= 4,
        settle(d, unit).1 == 4 || !reaches_thousand(settle(d, unit).0.0, settle(d, unit).0.1),
    decreases 4 - unit,
{
    if unit < 4 && reaches_thousand(d.0, d.1) {
        lemma_settle_stops(divide_by_thousand(d.0, d.1), unit + 1);
    }
}

/// A count is shown in the largest unit it reaches: the value shown is below
/// 1000 of its unit, unless the unit is already PB.
pub proof fn law_shown_in_the_largest_unit(bytes: nat)
    requires
        bytes >= 1000,
    ensures
        shown_value(bytes).1 <= 4,
        shown_value(bytes).1 == 4 || !reaches_thousand(shown_value(bytes).0.0, shown_value(bytes).0.1),
{
    let d = double_of(bytes);
    lemma_settle_stops(divide_by_thousand(d.0, d.1), 0);
}

/// The units are named `KB`, `MB`, `GB`, `TB` and `PB`, from the smallest.
pub proof fn law_unit_names()
    ensures
        unit_name(0) == "KB"@,
        unit_name(1) == "MB"@,
        unit_name(2) == "GB"@,
        unit_name(3) == "TB"@,
        unit_name(4) == "PB"@,
{
}

/// A count below 1000 is written out in bytes.
pub proof fn law_small_counts_in_bytes(bytes: nat)
    requires
        bytes < 1000,
    ensures
        human_size_text(bytes) == decimal(bytes) + " bytes"@,
{
}

/// Rounding picks the nearest whole quotient: it is off by at most half, and
/// a tie goes to the even neighbour.
pub proof fn law_rounding_is_to_nearest(n: nat, d: nat)
    requires
        d > 0,
    ensures
        2 * n <= 2 * round_half_even(n, d) * d + d,
        2 * round_half_even(n, d) * d <= 2 * n + d,
        2 * n + d == 2 * round_half_even(n, d) * d ==> round_half_even(n, d) % 2 == 0,
        2 * round_half_even(n, d) * d + d == 2 * n ==> round_half_even(n, d) % 2 == 0,
{
    let q = n / d;
    let r = n % d;
    vstd::arithmetic::div_mod::lemma_fundamental_div_mod(n as int, d as int);
    vstd::arithmetic::div_mod::lemma_mod_pos_bound(n as int, d as int);
    let t = round_half_even(n, d);
    assert(n == q * d + r) by (nonlinear_arith)
        requires
            n as int == d as int * (n as int / d as int) + n as int % d as int,
            q == n / d,
            r == n % d,
    ;
    let qd = q * d;
    if 2 * r > d || (2 * r == d && q % 2 == 1) {
        assert(t == q + 1);
        assert(2 * t * d == 2 * qd + 2 * d) by (nonlinear_arith)
            requires
                t == q + 1,
                qd == q * d,
        ;
        if 2 * r == d {
            assert(t % 2 == 0);
        }
    } else {
        assert(t == q);
        assert(2 * t * d == 2 * qd) by (nonlinear_arith)
            requires
                t == q,
                qd == q * d,
        ;
    }
}

proof fn lemma_widen(n: nat, e: int)
    requires
        1 <= n < SIG_LIMIT,
    ensures
        full_significand(widen(n, e).0),
        widen(n, e).1 <= e,
        widen(n, e).0 == n * two_pow((e - widen(n, e).1) as nat),
    decreases SIG_LIMIT - n,
{
    if n >= SIG_LOW {
        assert(two_pow(0) == 1);
        assert(n * two_pow(0) == n);
    } else {
        lemma_widen(2 * n, e - 1);
        let r = widen(2 * n, e - 1);
        let j = (e - 1 - r.1) as nat;
        assert(two_pow(j + 1) == 2 * two_pow(j));
        assert((e - r.1) as nat == j + 1);
        assert(2 * n * two_pow(j) == n * (2 * two_pow(j))) by (nonlinear_arith);
    }
}

proof fn lemma_excess_bits(n: nat)
    requires
        n >= SIG_LOW,
    ensures
        SIG_LOW <= n / two_pow(excess_bits(n)) < SIG_LIMIT,
    decreases n,
{
    if n >= SIG_LIMIT {
        lemma_excess_bits(n / 2);
        let k = excess_bits(n / 2);
        lemma_two_pow_monotone(0, k);
        vstd::arithmetic::div_mod::lemma_div_denominator(n as int, 2, two_pow(k) as int);
        assert(two_pow(k + 1) == 2 * two_pow(k));
        assert(excess_bits(n) == k + 1);
    } else {
        assert(n / 1 == n);
    }
}

/// A count becomes the nearest double with a full 53-bit significand: an
/// exact shift when the count fits in 53 bits, otherwise off by at most half
/// of its last unit.
pub proof fn law_count_to_nearest_double(n: nat)
    requires
        n >= 1,
    ensures
        full_significand(double_of(n).0),
        double_of(n).1 < 0 ==> double_of(n).0 == n * two_pow((-double_of(n).1) as nat),
        double_of(n).1 >= 0 ==> 2 * n <= 2 * double_of(n).0 * two_pow(double_of(n).1 as nat) + two_pow(
            double_of(n).1 as nat,
        ),
        double_of(n).1 >= 0 ==> 2 * double_of(n).0 * two_pow(double_of(n).1 as nat) <= 2 * n + two_pow(
            double_of(n).1 as nat,
        ),
{
    if n < SIG_LIMIT {
        lemma_widen(n, 0);
        if widen(n, 0).1 == 0 {
            assert(two_pow(0) == 1);
            assert(widen(n, 0).0 == n * two_pow(0));
            assert(widen(n, 0).0 == n);
            assert(double_of(n) == widen(n, 0));
            assert(2 * n * two_pow(0) == 2 * n);
        }
    } else {
        let k = excess_bits(n);
        let p = two_pow(k);
        lemma_two_pow_monotone(0, k);
        lemma_excess_bits(n);
        let q = round_half_even(n, p);
        law_rounding_is_to_nearest(n, p);
        assert(n / p <= q <= n / p + 1);
        lemma_two_values();
        if q == SIG_LIMIT {
            assert(double_of(n) == (SIG_LOW as nat, (k + 1) as int));
            assert(two_pow(((k + 1) as int) as nat) == 2 * p);
            assert(2 * SIG_LOW * (2 * p) == 2 * q * p) by (nonlinear_arith)
                requires
                    q == SIG_LIMIT,
                    SIG_LIMIT == 2 * SIG_LOW,
            ;
            assert(2 * double_of(n).0 * two_pow(double_of(n).1 as nat) == 2 * q * p);
        } else {
            assert(double_of(n) == (q, k as int));
            assert(two_pow((k as int) as nat) == p);
            assert(2 * n <= 2 * q * p + p);
            assert(2 * double_of(n).0 * two_pow(double_of(n).1 as nat) == 2 * q * p);
        }
    }
}

proof fn lemma_two_values()
    ensures
        SIG_LIMIT == 2 * SIG_LOW,
{
}

/// Dividing by 1000 gives the nearest double with a full 53-bit significand:
/// the exponent drops by 8 to 10, and the result times 1000 is within half a
/// last unit of the value divided.
pub proof fn law_thousandth_is_nearest(m: nat, e: int)
    requires
        full_significand(m),
    ensures
        full_significand(divide_by_thousand(m, e).0),
        8 <= e - divide_by_thousand(m, e).1 <= 10,
        2 * m * two_pow((e - divide_by_thousand(m, e).1) as nat) <= 2 * divide_by_thousand(m, e).0
            * 1000 + 1000,
        2 * divide_by_thousand(m, e).0 * 1000 <= 2 * m * two_pow((e - divide_by_thousand(m, e).1) as nat)
            + 1000,
{
    lemma_two_pow_values();
    let s = pre_shift(m);
    let big = m * two_pow(s);
    let q = round_half_even(big, 1000);
    law_rounding_is_to_nearest(big, 1000);
    if s == 10 {
        assert(big == m * 1024);
    } else {
        assert(big == m * 512);
    }
    assert(1000 * SIG_LOW <= big < 1000 * SIG_LIMIT);
    assert(SIG_LOW <= big / 1000 < SIG_LIMIT) by (nonlinear_arith)
        requires
            1000 * SIG_LOW <= big < 1000 * SIG_LIMIT,
    ;
    vstd::arithmetic::div_mod::lemma_fundamental_div_mod(big as int, 1000);
    assert(big / 1000 <= q <= big / 1000 + 1);
    if q == SIG_LIMIT {
        let s1 = (s - 1) as nat;
        assert(two_pow(s) == 2 * two_pow(s1));
        assert(m * two_pow(s) == 2 * (m * two_pow(s1))) by (nonlinear_arith)
            requires
                two_pow(s) == 2 * two_pow(s1),
        ;
        lemma_two_values();
        assert(divide_by_thousand(m, e) == (SIG_LOW as nat, e - s + 1));
        assert((e - divide_by_thousand(m, e).1) as nat == s1);
        assert(2 * m * two_pow(s1) == big) by (nonlinear_arith)
            requires
                big == 2 * (m * two_pow(s1)),
        ;
        assert(2 * q * 1000 == 4 * SIG_LOW * 1000);
    } else {
        assert(divide_by_thousand(m, e) == (q, e - s));
        assert((e - divide_by_thousand(m, e).1) as nat == s);
        assert(2 * m * two_pow(s) == 2 * big) by (nonlinear_arith)
            requires
                big == m * two_pow(s),
        ;
    }
}

/// The tenths shown are the value in tenths to within half a tenth.
pub proof fn law_tenths_are_nearest(m: nat, e: int)
    ensures
        e >= 0 ==> tenths(m, e) == 10 * m * two_pow(e as nat),
        e < 0 ==> 2 * (10 * m) <= 2 * tenths(m, e) * two_pow((-e) as nat) + two_pow((-e) as nat),
        e < 0 ==> 2 * tenths(m, e) * two_pow((-e) as nat) <= 2 * (10 * m) + two_pow((-e) as nat),
{
    if e < 0 {
        lemma_two_pow_monotone(0, (-e) as nat);
        law_rounding_is_to_nearest(10 * m, two_pow((-e) as nat));
    }
}

} // verus!
