//! Shares are printed the way a 64-bit IEEE float prints them: the count, the multiplication
//! by a hundred and the division each round to the nearest double, ties to even, and the
//! printed digits round that double's exact value to the nearest, ties to even. Here a double
//! is an integer significand and a power of two, worked out exactly in integers.

use vstd::prelude::*;

verus! {

/// Two to the power `e`.
pub open spec fn two_to(e: nat) -> nat
    decreases e,
{
    if e == 0 {
        1
    } else {
        2 * two_to((e - 1) as nat)
    }
}

/// How many times `d` can be doubled and stay at most `n`.
pub open spec fn lg_down(n: nat, d: nat) -> nat
    decreases n - d,
    when d > 0
{
    if n < 2 * d {
        0
    } else {
        1 + lg_down(n, 2 * d)
    }
}

/// How many times `n` must be doubled to reach `d`.
pub open spec fn lg_up(n: nat, d: nat) -> nat
    decreases (if n >= d { 0 } else { d - n }),
    when n > 0
{
    if n >= d {
        0
    } else {
        1 + lg_up(2 * n, d)
    }
}

/// The power of two at or below `n / d`.
pub open spec fn lg(n: nat, d: nat) -> int {
    if n >= d {
        lg_down(n, d) as int
    } else {
        -(lg_up(n, d) as int)
    }
}

/// The nearest double to `(n / d) * 2^k`, ties to the even significand, as a significand of 53
/// bits and an exponent; zero is `(0, 0)`. Every value rounded here lies well inside the range
/// of normal doubles.
pub open spec fn rn(n: nat, d: nat, k: int) -> (nat, int) {
    if n == 0 || d == 0 {
        (0, 0)
    } else {
        let l = lg(n, d);
        let s = 52 - l;
        let num = if s >= 0 { n * two_to(s as nat) } else { n };
        let den = if s >= 0 { d } else { d * two_to((-s) as nat) };
        let f = num / den;
        let r = num % den;
        let m = if 2 * r > den || (2 * r == den && f % 2 == 1) { f + 1 } else { f };
        if m == two_to(53) {
            (two_to(52), k + l - 51)
        } else {
            (m, k + l - 52)
        }
    }
}

proof fn lemma_two_to_add(a: nat, b: nat)
    ensures
        two_to(a + b) == two_to(a) * two_to(b),
    decreases a,
{
    if a == 0 {
        assert(two_to(a) == 1);
        assert(a + b == b);
    } else {
        lemma_two_to_add((a - 1) as nat, b);
        let x = two_to((a - 1) as nat);
        let y = two_to(b);
        assert(((a - 1) as nat + b) as nat == (a + b - 1) as nat);
        assert(two_to((a + b) as nat) == 2 * two_to((a + b - 1) as nat));
        assert(two_to(a) == 2 * x);
        assert(2 * (x * y) == (2 * x) * y) by (nonlinear_arith);
    }
}

proof fn lemma_two_to_pos(e: nat)
    ensures
        two_to(e) >= 1,
    decreases e,
{
    if e > 0 {
        lemma_two_to_pos((e - 1) as nat);
    }
}

proof fn lemma_two_to_mono(a: nat, b: nat)
    requires
        a <= b,
    ensures
        two_to(a) <= two_to(b),
    decreases b,
{
    if a < b {
        lemma_two_to_mono(a, (b - 1) as nat);
        lemma_two_to_pos((b - 1) as nat);
    }
}

proof fn lemma_two_to_values()
    ensures
        two_to(0) == 1,
        two_to(51) == 0x8_0000_0000_0000,
        two_to(52) == 0x10_0000_0000_0000,
        two_to(53) == 0x20_0000_0000_0000,
        two_to(54) == 0x40_0000_0000_0000,
        two_to(60) == 0x1000_0000_0000_0000,
        two_to(64) == 0x1_0000_0000_0000_0000,
        two_to(65) == 0x2_0000_0000_0000_0000,
{
    reveal_with_fuel(two_to, 66);
}

proof fn lemma_double(a: nat, t: nat)
    ensures
        a * two_to(t + 1) == 2 * (a * two_to(t)),
{
    assert(two_to(t + 1) == 2 * two_to(t));
    assert(a * (2 * two_to(t)) == 2 * (a * two_to(t))) by (nonlinear_arith);
}

/// The nearest double to `(n / d) * 2^k`, ties to the even significand: its significand, of 53
/// bits unless the value is zero, and its exponent.
pub fn round_ratio(n: u128, d: u128, k: i64) -> (r: (u128, i64))
    requires
        n < two_to(65),
        0 < d < two_to(54),
        -1000 < k < 1000,
    ensures
        r.0 as nat == rn(n as nat, d as nat, k as int).0,
        r.1 as int == rn(n as nat, d as nat, k as int).1,
        n > 0 ==> two_to(52) <= r.0 < two_to(53),
        n > 0 ==> k - 106 <= r.1 <= k + 13,
        n > 0 && n >= d ==> r.1 >= k - 52,
        n > 0 && n < 2 * d ==> r.1 <= k - 51,
        n > 0 && n < 0x1_0000_0000_0000_0000 * d ==> r.1 <= k + 12,
        n > 0 && n < 0x1000_0000_0000_0000 * d ==> r.1 <= k + 8,
{
    proof {
        lemma_two_to_values();
    }
    if n == 0 {
        return (0, 0);
    }
    let ghost l: int;
    let num: u128;
    let den: u128;
    let lexp: i64;
    if n >= d {
        let mut dd: u128 = d;
        let mut j: u64 = 0;
        while n >= 2 * dd
            invariant
                n < 0x2_0000_0000_0000_0000,
                0 < d < 0x40_0000_0000_0000,
                dd as nat == d as nat * two_to(j as nat),
                d <= dd <= n,
                j <= 64,
                two_to(j as nat) <= dd,
                lg_down(n as nat, d as nat) == j + lg_down(n as nat, dd as nat),
            decreases 64 - j,
        {
            proof {
                lemma_double(d as nat, j as nat);
                assert(two_to((j + 1) as nat) == 2 * two_to(j as nat));
                if j + 1 > 64 {
                    lemma_two_to_mono(65, (j + 1) as nat);
                    lemma_two_to_values();
                    assert(false);
                }
            }
            dd = 2 * dd;
            j = j + 1;
        }
        lexp = j as i64;
        proof {
            l = j as int;
            assert(lg_down(n as nat, dd as nat) == 0);
            if j >= 1 {
                lemma_two_to_mono(1, j as nat);
                reveal_with_fuel(two_to, 2);
                assert(d as nat * 2 <= d as nat * two_to(j as nat)) by (nonlinear_arith)
                    requires two_to(j as nat) >= 2;
            }
            if j >= 64 {
                lemma_two_to_mono(64, j as nat);
                assert(d as nat * 0x1_0000_0000_0000_0000 <= d as nat * two_to(j as nat)) by (nonlinear_arith)
                    requires two_to(j as nat) >= 0x1_0000_0000_0000_0000;
            }
            if j >= 60 {
                lemma_two_to_mono(60, j as nat);
                assert(d as nat * 0x1000_0000_0000_0000 <= d as nat * two_to(j as nat)) by (nonlinear_arith)
                    requires two_to(j as nat) >= 0x1000_0000_0000_0000;
            }
        }
        if j <= 52 {
            let mut t: u64 = 0;
            let mut x: u128 = n;
            while t < 52 - j
                invariant
                    j <= 52,
                    t <= 52 - j,
                    x as nat == n as nat * two_to(t as nat),
                    x < 2 * (d as nat * two_to((j + t) as nat)),
                    dd as nat == d as nat * two_to(j as nat),
                    0 < d < 0x40_0000_0000_0000,
                    d <= n <= x,
                    dd <= n,
                decreases 52 - j - t,
            {
                proof {
                    lemma_double(n as nat, t as nat);
                    lemma_double(d as nat, (j + t) as nat);
                    lemma_two_to_mono((j + t) as nat, 51);
                    lemma_two_to_values();
                    let a = d as nat;
                    assert(a * two_to((j + t) as nat) <= a * 0x8_0000_0000_0000) by (nonlinear_arith)
                        requires two_to((j + t) as nat) <= 0x8_0000_0000_0000;
                    assert(a * 0x8_0000_0000_0000 < 0x40_0000_0000_0000 * 0x8_0000_0000_0000) by (nonlinear_arith)
                        requires a < 0x40_0000_0000_0000;
                }
                x = x * 2;
                t = t + 1;
            }
            proof {
                assert(t == 52 - j);
                assert((52 - l) as nat == t as nat);
                lemma_two_to_add(j as nat, t as nat);
                assert((j + t) as nat == 52);
                let c = two_to(t as nat);
                assert(dd as nat * c == d as nat * 0x10_0000_0000_0000) by (nonlinear_arith)
                    requires dd as nat == d as nat * two_to(j as nat), two_to(52) == two_to(j as nat) * c,
                        two_to(52) == 0x10_0000_0000_0000;
                assert(dd as nat * c <= n as nat * c) by (nonlinear_arith)
                    requires dd <= n;
                assert(n < 2 * dd);
                assert(n as nat * c < 2 * (dd as nat * c)) by (nonlinear_arith)
                    requires n < 2 * dd, c >= 1;
                lemma_two_to_pos(t as nat);
                assert(d as nat * 0x10_0000_0000_0000 <= x);
                assert(x < d as nat * 0x20_0000_0000_0000);
            }
            num = x;
            den = d;
        } else {
            let mut t: u64 = 0;
            let mut y: u128 = d;
            while t < j - 52
                invariant
                    52 < j <= 64,
                    t <= j - 52,
                    y as nat == d as nat * two_to(t as nat),
                    y as nat * two_to((j - t) as nat) == dd as nat,
                    dd <= n,
                    n < 0x2_0000_0000_0000_0000,
                    0 < y,
                decreases j - 52 - t,
            {
                proof {
                    let rest = (j - t - 1) as nat;
                    assert(two_to((j - t) as nat) == 2 * two_to(rest));
                    lemma_two_to_pos(rest);
                    lemma_double(d as nat, t as nat);
                    assert(y as nat * (2 * two_to(rest)) == (y as nat * 2) * two_to(rest)) by (nonlinear_arith);
                    assert((y as nat * 2) <= (y as nat * 2) * two_to(rest)) by (nonlinear_arith)
                        requires two_to(rest) >= 1;
                }
                y = y * 2;
                t = t + 1;
            }
            proof {
                assert(t == j - 52);
                assert((-(52 - l)) as nat == t as nat);
                assert((j - t) as nat == 52);
                assert(n < 2 * dd);
                assert(y as nat * 0x10_0000_0000_0000 <= n);
                assert(n < y as nat * 0x20_0000_0000_0000);
            }
            num = n;
            den = y;
        }
    } else {
        let mut x: u128 = n;
        let mut j: u64 = 0;
        while x < d
            invariant
                0 < n < d,
                d < 0x40_0000_0000_0000,
                x as nat == n as nat * two_to(j as nat),
                n <= x < 2 * d,
                j <= 54,
                two_to(j as nat) <= x,
                lg_up(n as nat, d as nat) == j + lg_up(x as nat, d as nat),
            decreases 54 - j,
        {
            proof {
                lemma_double(n as nat, j as nat);
                assert(two_to((j + 1) as nat) == 2 * two_to(j as nat));
                if j + 1 > 54 {
                    lemma_two_to_mono(54, (j + 1) as nat);
                    lemma_two_to_values();
                    assert(false);
                }
            }
            x = 2 * x;
            j = j + 1;
        }
        lexp = -(j as i64);
        proof {
            l = -(j as int);
            assert(lg_up(x as nat, d as nat) == 0);
        }
        let mut t: u64 = 0;
        let mut z: u128 = x;
        while t < 52
            invariant
                t <= 52,
                z as nat == x as nat * two_to(t as nat),
                x < 2 * d,
                d < 0x40_0000_0000_0000,
                0 < x <= z,
            decreases 52 - t,
        {
            proof {
                lemma_double(x as nat, t as nat);
                lemma_two_to_mono(t as nat, 51);
                lemma_two_to_values();
                assert(x as nat * two_to(t as nat) <= x as nat * 0x8_0000_0000_0000) by (nonlinear_arith)
                    requires two_to(t as nat) <= 0x8_0000_0000_0000;
                assert(x as nat * 0x8_0000_0000_0000 < 0x80_0000_0000_0000 * 0x8_0000_0000_0000) by (nonlinear_arith)
                    requires x < 0x80_0000_0000_0000;
            }
            z = z * 2;
            t = t + 1;
        }
        proof {
            lemma_two_to_add(j as nat, 52);
            assert(z as nat == n as nat * two_to((j + 52) as nat)) by (nonlinear_arith)
                requires z as nat == x as nat * two_to(52), x as nat == n as nat * two_to(j as nat),
                    two_to((j + 52) as nat) == two_to(j as nat) * two_to(52);
            assert((52 - l) as nat == (j + 52) as nat);
            assert(d as nat * 0x10_0000_0000_0000 <= z) by (nonlinear_arith)
                requires z as nat == x as nat * two_to(52), d <= x, two_to(52) == 0x10_0000_0000_0000;
            assert(z < d as nat * 0x20_0000_0000_0000) by (nonlinear_arith)
                requires z as nat == x as nat * two_to(52), x < 2 * d, two_to(52) == 0x10_0000_0000_0000;
        }
        num = z;
        den = d;
    }
    let f = num / den;
    let rem = num % den;
    proof {
        assert(0x10_0000_0000_0000 <= f < 0x20_0000_0000_0000) by (nonlinear_arith)
            requires den as nat * 0x10_0000_0000_0000 <= num, num < den as nat * 0x20_0000_0000_0000, den > 0,
                f == num / den;
    }
    let m = if 2 * rem > den || (2 * rem == den && f % 2 == 1) {
        f + 1
    } else {
        f
    };
    if m == 0x20_0000_0000_0000 {
        (0x10_0000_0000_0000, k + lexp - 51)
    } else {
        (m, k + lexp - 52)
    }
}

/// A double `m * 2^e` times `scale`, rounded to the nearest integer, ties to even: the digits
/// printing it with as many decimal places as `scale` has zeros shows, without the point.
pub open spec fn scaled_round(m: nat, e: int, scale: nat) -> nat {
    let s = m * scale;
    if e >= 0 {
        s * two_to(e as nat)
    } else {
        let p = two_to((-e) as nat);
        let q = s / p;
        let r = s % p;
        if 2 * r > p || (2 * r == p && q % 2 == 1) {
            q + 1
        } else {
            q
        }
    }
}

/// A double `m * 2^e` times `scale`, rounded to the nearest integer, ties to even.
pub fn round_scaled(m: u128, e: i64, scale: u128) -> (r: u128)
    requires
        m < two_to(53),
        1 <= scale <= 100,
        -2000 < e < 60,
    ensures
        r as nat == scaled_round(m as nat, e as int, scale as nat),
{
    proof {
        lemma_two_to_values();
        assert(m * scale < 0x80_0000_0000_0000 * 100) by (nonlinear_arith)
            requires m < 0x20_0000_0000_0000, scale <= 100;
    }
    let s = m * scale;
    proof {
        assert(s as nat * 1 == s as nat);
    }
    if e >= 0 {
        let mut t: u128 = s;
        let mut i: i64 = 0;
        while i < e
            invariant
                0 <= i <= e < 60,
                t as nat == s as nat * two_to(i as nat),
                s < 0x80_0000_0000_0000 * 100,
            decreases e - i,
        {
            proof {
                lemma_double(s as nat, i as nat);
                lemma_two_to_mono(i as nat, 59);
                reveal_with_fuel(two_to, 2);
                lemma_two_to_add(54, 5);
                lemma_two_to_add(59, 1);
                assert(two_to(59) == 0x800_0000_0000_0000) by {
                    lemma_two_to_values();
                    assert(two_to(60) == 2 * two_to(59));
                }
                assert(s as nat * two_to(i as nat) <= s as nat * 0x800_0000_0000_0000) by (nonlinear_arith)
                    requires two_to(i as nat) <= 0x800_0000_0000_0000;
            }
            t = t * 2;
            i = i + 1;
        }
        t
    } else if e < -120 {
        proof {
            lemma_two_to_mono(121, (-e) as nat);
            lemma_two_to_mono(65, 121);
            let p = two_to((-e) as nat);
            assert(s < p);
            assert(s as nat / p == 0) by (nonlinear_arith)
                requires s < p;
            assert(s as nat % p == s) by (nonlinear_arith)
                requires s < p;
            lemma_two_to_add(65, 56);
            lemma_two_to_pos(56);
            assert(two_to(121) >= 2 * two_to(65)) by (nonlinear_arith)
                requires two_to(121) == two_to(65) * two_to(56), two_to(56) >= 2 || two_to(56) >= 1;
        }
        0
    } else {
        let ne: i64 = -e;
        let mut p: u128 = 1;
        let mut i: i64 = 0;
        while i < ne
            invariant
                0 <= i <= ne <= 120,
                p as nat == two_to(i as nat),
            decreases ne - i,
        {
            proof {
                lemma_two_to_values();
                assert(two_to((i + 1) as nat) == 2 * two_to(i as nat));
                lemma_two_to_mono(i as nat, 119);
                lemma_two_to_add(65, 54);
                assert(two_to(119) < 0x8000_0000_0000_0000_0000_0000_0000_0000int) by (nonlinear_arith)
                    requires two_to(119) == two_to(65) * two_to(54), two_to(65) == 0x2_0000_0000_0000_0000,
                        two_to(54) == 0x40_0000_0000_0000;
            }
            p = p * 2;
            i = i + 1;
        }
        proof {
            lemma_two_to_values();
            lemma_two_to_pos(ne as nat);
            lemma_two_to_mono(ne as nat, 120);
            lemma_two_to_add(65, 55);
            assert(two_to(55) == 2 * two_to(54));
            assert(two_to(120) < 0x8000_0000_0000_0000_0000_0000_0000_0000int) by (nonlinear_arith)
                requires two_to(120) == two_to(65) * two_to(55), two_to(65) == 0x2_0000_0000_0000_0000,
                    two_to(55) == 0x80_0000_0000_0000;
        }
        let q = s / p;
        let r = s % p;
        if 2 * r > p || (2 * r == p && q % 2 == 1) {
            q + 1
        } else {
            q
        }
    }
}

/// `100.0 * part as f64 / whole as f64` as a double: the part converted, multiplied by a
/// hundred, then divided by the whole converted, each step rounded to the nearest double.
pub open spec fn percent_double(part: nat, whole: nat) -> (nat, int) {
    let a = rn(part, 1, 0);
    let b = rn(100 * a.0, 1, a.1);
    let c = rn(whole, 1, 0);
    rn(b.0, c.0, b.1 - c.1)
}

/// `100.0 * (part as f64 / whole as f64)` as a double: the quotient of the two converted counts
/// rounded first, then multiplied by a hundred and rounded again.
pub open spec fn share_double(part: nat, whole: nat) -> (nat, int) {
    let a = rn(part, 1, 0);
    let c = rn(whole, 1, 0);
    let q = rn(a.0, c.0, a.1 - c.1);
    rn(100 * q.0, 1, q.1)
}

/// A count converted to the nearest double.
fn count_double(n: u64) -> (r: (u128, i64))
    ensures
        r.0 as nat == rn(n as nat, 1, 0).0,
        r.1 as int == rn(n as nat, 1, 0).1,
        r.0 < two_to(53),
        n > 0 ==> two_to(52) <= r.0 && -52 <= r.1 <= 12,
{
    proof {
        lemma_two_to_values();
    }
    round_ratio(n as u128, 1, 0)
}

/// A double `m * 2^e` times a hundred, rounded to the nearest double.
fn hundredfold(m: u128, e: i64) -> (r: (u128, i64))
    requires
        m < two_to(53),
        -900 < e < 900,
    ensures
        r.0 as nat == rn(100 * m as nat, 1, e as int).0,
        r.1 as int == rn(100 * m as nat, 1, e as int).1,
        r.0 < two_to(53),
        m > 0 ==> two_to(52) <= r.0 && e - 52 <= r.1 <= e + 8,
{
    proof {
        lemma_two_to_values();
    }
    round_ratio(100 * m, 1, e)
}

/// `100.0 * part as f64 / whole as f64`, printed with as many decimal places as `scale` has
/// zeros, read as an integer without its point.
pub fn percent_scaled(part: u64, whole: u64, scale: u128) -> (r: u128)
    requires
        whole > 0,
        1 <= scale <= 100,
    ensures
        r as nat == scaled_round(percent_double(part as nat, whole as nat).0, percent_double(part as nat, whole as nat).1, scale as nat),
{
    proof {
        lemma_two_to_values();
    }
    let a = count_double(part);
    let b = hundredfold(a.0, a.1);
    let c = count_double(whole);
    let q = round_ratio(b.0, c.0, b.1 - c.1);
    round_scaled(q.0, q.1, scale)
}

/// `100.0 * (part as f64 / whole as f64)`, printed with as many decimal places as `scale` has
/// zeros, read as an integer without its point.
pub fn share_scaled(part: u64, whole: u64, scale: u128) -> (r: u128)
    requires
        whole > 0,
        1 <= scale <= 100,
    ensures
        r as nat == scaled_round(share_double(part as nat, whole as nat).0, share_double(part as nat, whole as nat).1, scale as nat),
{
    proof {
        lemma_two_to_values();
    }
    let a = count_double(part);
    let c = count_double(whole);
    let q = round_ratio(a.0, c.0, a.1 - c.1);
    let p = hundredfold(q.0, q.1);
    round_scaled(p.0, p.1, scale)
}

} // verus!
