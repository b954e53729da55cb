use vstd::prelude::*;

verus! {

use crate::magnitude::{
    bit, val, power, pow2, lemma_pow2_unfold, lemma_val_bound, lemma_val_empty,
    mag_from_u64, mag_mul, mag_mul_u64, mag_ge, mag_add, mag_divmod, mag_shift_in,
};

/// The integer nearest to `n / d`, ties going to the even one.
pub open spec fn rne(n: nat, d: nat) -> nat
    recommends
        d > 0,
{
    let q = n / d;
    let r = n % d;
    if 2 * r > d || (2 * r == d && q % 2 == 1) {
        q + 1
    } else {
        q
    }
}

/// For `d <= n`: the largest `t` with `d * b^t <= n`.
pub open spec fn log_up(b: nat, n: nat, d: nat) -> nat
    decreases n - d
    via log_up_decreases
{
    if b >= 2 && d >= 1 && d * b <= n {
        1 + log_up(b, n, d * b)
    } else {
        0
    }
}

/// For `1 <= n < d`: the least `k >= 1` with `n * b^k >= d`.
pub open spec fn log_down(b: nat, n: nat, d: nat) -> nat
    decreases d - n
    via log_down_decreases
{
    if b >= 2 && n >= 1 && n * b < d {
        1 + log_down(b, n * b, d)
    } else {
        1
    }
}

#[via_fn]
proof fn log_up_decreases(b: nat, n: nat, d: nat) {
    if b >= 2 && d >= 1 && d * b <= n {
        assert(d * b >= 2 * d) by (nonlinear_arith)
            requires b >= 2;
    }
}

#[via_fn]
proof fn log_down_decreases(b: nat, n: nat, d: nat) {
    if b >= 2 && n >= 1 && n * b < d {
        assert(n * b >= 2 * n) by (nonlinear_arith)
            requires b >= 2;
    }
}

/// `floor(log_b(n / d))` for positive `n`, `d`.
pub open spec fn ilog(b: nat, n: nat, d: nat) -> int {
    if n >= d {
        log_up(b, n, d) as int
    } else {
        -(log_down(b, n, d) as int)
    }
}

/// Numerator of `(n / d) * b^k`.
pub open spec fn scale_num(n: nat, b: nat, k: int) -> nat {
    if k >= 0 {
        n * power(b, k as nat)
    } else {
        n
    }
}

/// Denominator of `(n / d) * b^k`.
pub open spec fn scale_den(d: nat, b: nat, k: int) -> nat {
    if k >= 0 {
        d
    } else {
        d * power(b, (-k) as nat)
    }
}

/// The exponent of the last kept digit when `n / d` is written with `p` digits in base `b`.
pub open spec fn lead_exp(b: nat, p: nat, n: nat, d: nat) -> int {
    ilog(b, n, d) - p + 1
}

/// `n / d` rounded to nearest, ties to even, at `p` digits in base `b`: the pair
/// `(m, e)` with `m * b^e` the rounded value. When rounding carries into one more
/// digit, `m` is `b^(p-1)` and `e` one higher.
pub open spec fn round_ratio(b: nat, p: nat, n: nat, d: nat) -> (nat, int) {
    let e = lead_exp(b, p, n, d);
    let m = rne(scale_num(n, b, -e), scale_den(d, b, -e));
    if m == power(b, p) {
        (power(b, (p - 1) as nat), e + 1)
    } else {
        (m, e)
    }
}

proof fn lemma_pow2_mono(a: nat, c: nat)
    requires
        a >= c,
    ensures
        pow2(a) >= pow2(c),
    decreases a - c,
{
    if a > c {
        lemma_pow2_mono((a - 1) as nat, c);
        lemma_pow2_unfold((a - 1) as nat);
    }
}

/// A number of at least `2^k` held in `len` bits has `k < len`.
pub proof fn lemma_bits_bound(x: nat, k: nat, len: nat)
    requires
        pow2(k) <= x,
        x < pow2(len),
    ensures
        k < len,
{
    if k >= len {
        lemma_pow2_mono(k, len);
    }
}

/// `log_up` is the floor of the logarithm: `d * b^t <= n < d * b^(t+1)`.
pub proof fn lemma_log_up_bounds(b: nat, n: nat, d: nat)
    requires
        b >= 2,
        d >= 1,
        d <= n,
    ensures
        d * power(b, log_up(b, n, d)) <= n,
        n < d * power(b, log_up(b, n, d) + 1),
    decreases n - d,
{
    if d * b <= n {
        assert(d * b >= 2 * d) by (nonlinear_arith)
            requires b >= 2;
        lemma_log_up_bounds(b, n, d * b);
        let t = log_up(b, n, d * b);
        assert(log_up(b, n, d) == t + 1);
        assert(power(b, t + 1) == b * power(b, t));
        assert(power(b, t + 2) == b * power(b, t + 1));
        assert(d * power(b, t + 1) == d * b * power(b, t)) by (nonlinear_arith)
            requires power(b, t + 1) == b * power(b, t);
        assert(d * power(b, t + 2) == d * b * power(b, t + 1)) by (nonlinear_arith)
            requires power(b, t + 2) == b * power(b, t + 1);
        assert(d * b * power(b, t) <= n);
        assert(d * power(b, log_up(b, n, d)) <= n);
    } else {
        assert(log_up(b, n, d) == 0);
        assert(power(b, 0) == 1);
        assert(power(b, 1) == b * power(b, 0));
        assert(d * power(b, 0) == d);
        assert(d * power(b, 1) == d * b);
    }
}

/// `log_down` is the ceiling of the inverse logarithm: `n * b^k >= d > n * b^(k-1)`.
pub proof fn lemma_log_down_bounds(b: nat, n: nat, d: nat)
    requires
        b >= 2,
        n >= 1,
        n < d,
    ensures
        log_down(b, n, d) >= 1,
        n * power(b, log_down(b, n, d)) >= d,
        n * power(b, (log_down(b, n, d) - 1) as nat) < d,
    decreases d - n,
{
    if n * b < d {
        assert(n * b >= 2 * n) by (nonlinear_arith)
            requires b >= 2;
        lemma_log_down_bounds(b, n * b, d);
        let k = log_down(b, n * b, d);
        assert(log_down(b, n, d) == k + 1);
        assert(power(b, k + 1) == b * power(b, k));
        assert(power(b, k) == b * power(b, (k - 1) as nat));
        assert(n * power(b, k + 1) == n * b * power(b, k)) by (nonlinear_arith)
            requires power(b, k + 1) == b * power(b, k);
        assert(n * power(b, k) == n * b * power(b, (k - 1) as nat)) by (nonlinear_arith)
            requires power(b, k) == b * power(b, (k - 1) as nat);
    } else {
        assert(log_down(b, n, d) == 1);
        assert(power(b, 0) == 1);
        assert(power(b, 1) == b * power(b, 0));
        assert(n * power(b, 0) == n);
        assert(n * power(b, 1) == n * b);
    }
}

pub proof fn lemma_power_add(b: nat, x: nat, y: nat)
    ensures
        power(b, x + y) == power(b, x) * power(b, y),
    decreases y,
{
    if y > 0 {
        let yy = (y - 1) as nat;
        lemma_power_add(b, x, yy);
        let s = (x + y) as nat;
        assert((s - 1) as nat == x + yy);
        assert(power(b, s) == b * power(b, (s - 1) as nat));
        assert(power(b, y) == b * power(b, yy));
        assert(b * (power(b, x) * power(b, yy)) == power(b, x) * (b * power(b, yy))) by (nonlinear_arith);
    } else {
        assert(power(b, y) == 1);
        assert(x + y == x);
    }
}

/// At the lead exponent the scaled ratio has exactly `p` digits before rounding:
/// `b^(p-1) * D <= N < b^p * D`.
pub proof fn lemma_scaled_in_range(b: nat, p: nat, n: nat, d: nat)
    requires
        b >= 2,
        p >= 1,
        n >= 1,
        d >= 1,
    ensures
        ({
            let e = lead_exp(b, p, n, d);
            let big_n = scale_num(n, b, -e);
            let big_d = scale_den(d, b, -e);
            &&& power(b, (p - 1) as nat) * big_d <= big_n
            &&& big_n < power(b, p) * big_d
        }),
{
    let e = lead_exp(b, p, n, d);
    let pm = (p - 1) as nat;
    if n >= d {
        lemma_log_up_bounds(b, n, d);
        let t = log_up(b, n, d);
        assert(e == t - p + 1);
        if e <= 0 {
            let k = (p - 1 - t) as nat;
            lemma_power_add(b, t, k);
            lemma_power_add(b, t + 1, k);
            assert(t + k == pm);
            assert(t + 1 + k == p);
            crate::magnitude::lemma_power_positive(b, k);
            assert(d * power(b, t) * power(b, k) <= n * power(b, k)) by (nonlinear_arith)
                requires d * power(b, t) <= n;
            assert(n * power(b, k) < d * power(b, t + 1) * power(b, k)) by (nonlinear_arith)
                requires n < d * power(b, t + 1), power(b, k) >= 1;
            assert(scale_num(n, b, -e) == n * power(b, k));
            assert(scale_den(d, b, -e) == d);
            assert(power(b, pm) * d == d * power(b, t) * power(b, k)) by (nonlinear_arith)
                requires power(b, pm) == power(b, t) * power(b, k);
            assert(power(b, p) * d == d * power(b, t + 1) * power(b, k)) by (nonlinear_arith)
                requires power(b, p) == power(b, t + 1) * power(b, k);
        } else {
            let ee = e as nat;
            lemma_power_add(b, pm, ee);
            lemma_power_add(b, p, ee);
            assert(pm + ee == t);
            assert(p + ee == t + 1);
            assert(power(b, pm) * (d * power(b, ee)) == d * power(b, t)) by (nonlinear_arith)
                requires power(b, t) == power(b, pm) * power(b, ee);
            assert(power(b, p) * (d * power(b, ee)) == d * power(b, t + 1)) by (nonlinear_arith)
                requires power(b, t + 1) == power(b, p) * power(b, ee);
            assert(scale_num(n, b, -e) == n);
            assert(scale_den(d, b, -e) == d * power(b, ee));
        }
    } else {
        lemma_log_down_bounds(b, n, d);
        let kd = log_down(b, n, d);
        let k = (p - 1 + kd) as nat;
        assert(-e == k);
        lemma_power_add(b, kd, pm);
        lemma_power_add(b, (kd - 1) as nat, p);
        assert(kd + pm == k);
        assert((kd - 1) as nat + p == k);
        crate::magnitude::lemma_power_positive(b, pm);
        crate::magnitude::lemma_power_positive(b, p);
        assert(n * power(b, k) >= d * power(b, pm)) by (nonlinear_arith)
            requires n * power(b, kd) >= d, power(b, k) == power(b, kd) * power(b, pm), power(b, pm) >= 1;
        assert(n * power(b, k) < d * power(b, p)) by (nonlinear_arith)
            requires n * power(b, (kd - 1) as nat) < d, power(b, k) == power(b, (kd - 1) as nat) * power(b, p),
                power(b, p) >= 1;
        assert(scale_num(n, b, -e) == n * power(b, k));
        assert(scale_den(d, b, -e) == d);
        assert(power(b, pm) * d == d * power(b, pm)) by (nonlinear_arith);
        assert(power(b, p) * d == d * power(b, p)) by (nonlinear_arith);
    }
}

/// A rounded significand has exactly `p` digits: `b^(p-1) <= m < b^p`.
pub proof fn lemma_round_ratio_digits(b: nat, p: nat, n: nat, d: nat)
    requires
        b >= 2,
        p >= 1,
        n >= 1,
        d >= 1,
    ensures
        power(b, (p - 1) as nat) <= round_ratio(b, p, n, d).0 < power(b, p),
{
    lemma_scaled_in_range(b, p, n, d);
    let e = lead_exp(b, p, n, d);
    let big_n = scale_num(n, b, -e);
    let big_d = scale_den(d, b, -e);
    let lo = power(b, (p - 1) as nat);
    let hi = power(b, p);
    assert(hi == b * lo);
    crate::magnitude::lemma_power_positive(b, (p - 1) as nat);
    if e > 0 {
        crate::magnitude::lemma_power_positive(b, e as nat);
        assert(big_d == d * power(b, e as nat));
        assert(d * power(b, e as nat) >= 1) by (nonlinear_arith)
            requires d >= 1, power(b, e as nat) >= 1;
    }
    let q = big_n / big_d;
    let r = big_n % big_d;
    vstd::arithmetic::div_mod::lemma_fundamental_div_mod(big_n as int, big_d as int);
    assert(q >= lo) by (nonlinear_arith)
        requires big_n == q * big_d + r, 0 <= r < big_d, lo * big_d <= big_n, q >= 0;
    assert(q < hi) by (nonlinear_arith)
        requires big_n == q * big_d + r, 0 <= r, big_n < hi * big_d, big_d >= 1, q >= 0;
    assert(lo < hi) by (nonlinear_arith)
        requires hi == b * lo, lo >= 1, b >= 2;
}

pub proof fn lemma_power_mono(b: nat, x: nat, y: nat)
    requires
        b >= 1,
        x <= y,
    ensures
        power(b, x) <= power(b, y),
    decreases y - x,
{
    if x < y {
        lemma_power_mono(b, x, (y - 1) as nat);
        crate::magnitude::lemma_power_positive(b, (y - 1) as nat);
        assert(power(b, y) == b * power(b, (y - 1) as nat));
        assert(power(b, (y - 1) as nat) <= b * power(b, (y - 1) as nat)) by (nonlinear_arith)
            requires b >= 1, power(b, (y - 1) as nat) >= 1;
    }
}

/// Rounding is exact on a number that already has at most `p` digits:
/// `c * b^j` with `c` of `pc <= p` digits rounds to `c * b^(p-pc)` at exponent
/// `pc + j - p`.
pub proof fn lemma_round_exact(b: nat, p: nat, pc: nat, c: nat, j: nat)
    requires
        b >= 2,
        1 <= pc <= p,
        power(b, (pc - 1) as nat) <= c < power(b, pc),
    ensures
        round_ratio(b, p, c * power(b, j), 1) == (c * power(b, (p - pc) as nat), pc + j - p),
{
    let n = c * power(b, j);
    crate::magnitude::lemma_power_positive(b, j);
    crate::magnitude::lemma_power_positive(b, (pc - 1) as nat);
    assert(n >= 1) by (nonlinear_arith)
        requires n == c * power(b, j), c >= power(b, (pc - 1) as nat), power(b, (pc - 1) as nat) >= 1,
            power(b, j) >= 1;
    lemma_log_up_bounds(b, n, 1);
    let t = log_up(b, n, 1);
    lemma_power_add(b, (pc - 1) as nat, j);
    lemma_power_add(b, pc, j);
    assert(power(b, (pc - 1 + j) as nat) <= n) by (nonlinear_arith)
        requires power(b, (pc - 1 + j) as nat) == power(b, (pc - 1) as nat) * power(b, j),
            power(b, (pc - 1) as nat) <= c, n == c * power(b, j);
    assert(n < power(b, pc + j)) by (nonlinear_arith)
        requires power(b, pc + j) == power(b, pc) * power(b, j), c < power(b, pc), n == c * power(b, j),
            power(b, j) >= 1;
    if (pc - 1 + j) as nat > t {
        lemma_power_mono(b, t + 1, (pc - 1 + j) as nat);
    }
    if t >= pc + j {
        lemma_power_mono(b, pc + j, t);
    }
    assert(t == pc - 1 + j);
    let e = lead_exp(b, p, n, 1);
    assert(e == pc + j - p);
    let q = c * power(b, (p - pc) as nat);
    lemma_power_add(b, (p - pc) as nat, pc);
    crate::magnitude::lemma_power_positive(b, (p - pc) as nat);
    assert(q < power(b, p)) by (nonlinear_arith)
        requires q == c * power(b, (p - pc) as nat), c < power(b, pc),
            power(b, p) == power(b, (p - pc) as nat) * power(b, pc), power(b, (p - pc) as nat) >= 1;
    let big_n = scale_num(n, b, -e);
    let big_d = scale_den(1, b, -e);
    if e <= 0 {
        let k = (-e) as nat;
        lemma_power_add(b, j, k);
        assert(j + k == p - pc);
        assert(big_n == q) by (nonlinear_arith)
            requires big_n == n * power(b, k), n == c * power(b, j), q == c * power(b, (p - pc) as nat),
                power(b, (p - pc) as nat) == power(b, j) * power(b, k);
        assert(big_d == 1);
        vstd::arithmetic::div_mod::lemma_fundamental_div_mod_converse(big_n as int, 1, q as int, 0);
    } else {
        let ee = e as nat;
        lemma_power_add(b, (p - pc) as nat, ee);
        assert((p - pc) as nat + ee == j);
        assert(big_d == power(b, ee));
        crate::magnitude::lemma_power_positive(b, ee);
        assert(big_n == q * big_d) by (nonlinear_arith)
            requires big_n == n, n == c * power(b, j), q == c * power(b, (p - pc) as nat), big_d == power(b, ee),
                power(b, j) == power(b, (p - pc) as nat) * power(b, ee);
        vstd::arithmetic::div_mod::lemma_fundamental_div_mod_converse(big_n as int, big_d as int, q as int, 0);
    }
    assert(rne(big_n, big_d) == q);
}

/// `8^t <= b^t` for `b >= 8`, so `2^(3t) <= b^t`.
proof fn lemma_pow2_triple_le(b: nat, t: nat)
    requires
        b >= 8,
    ensures
        pow2(3 * t) <= power(b, t),
    decreases t,
{
    if t > 0 {
        lemma_pow2_triple_le(b, (t - 1) as nat);
        let k = (3 * (t - 1)) as nat;
        lemma_pow2_unfold(k);
        lemma_pow2_unfold(k + 1);
        lemma_pow2_unfold(k + 2);
        assert(3 * t == k + 3);
        assert(pow2(k + 3) == 8 * pow2(k));
        assert(power(b, t) == b * power(b, (t - 1) as nat));
        assert(8 * pow2(k) <= b * power(b, (t - 1) as nat)) by (nonlinear_arith)
            requires pow2(k) <= power(b, (t - 1) as nat), b >= 8;
    }
}

/// The number of decimal digits in `2^p`, less one, is at most `p / 3`.
pub proof fn lemma_decimal_log_bound(p: nat)
    ensures
        0 <= ilog(10, pow2(p), 1) <= p / 3,
{
    lemma_pow2_unfold(p);
    lemma_log_up_bounds(10, pow2(p), 1);
    let t = log_up(10, pow2(p), 1);
    lemma_pow2_triple_le(10, t);
    lemma_pow2_unfold(p);
    lemma_bits_bound(pow2(p), 3 * t, p + 1);
}

/// `b^j` as a bit string.
pub fn mag_power(b: u64, j: u128) -> (r: Vec<bool>)
    ensures
        val(r@) == power(b as nat, j as nat),
{
    let mut r = mag_from_u64(1);
    let mut i: u128 = 0;
    while i < j
        invariant
            i <= j,
            val(r@) == power(b as nat, i as nat),
        decreases j - i,
    {
        r = mag_mul_u64(&r, b);
        i = i + 1;
        assert(val(r@) == power(b as nat, i as nat)) by (nonlinear_arith)
            requires
                val(r@) == power(b as nat, (i - 1) as nat) * b,
                power(b as nat, i as nat) == b * power(b as nat, (i - 1) as nat);
    }
    r
}

/// `floor(log_b(n / d))`.
pub fn mag_ilog(n: &Vec<bool>, d: &Vec<bool>, b: u64) -> (t: i128)
    requires
        b >= 2,
        val(n@) >= 1,
        val(d@) >= 1,
    ensures
        t == ilog(b as nat, val(n@), val(d@)),
        -(usize::MAX as int) - 1 <= t <= usize::MAX,
{
    let ghost bn = b as nat;
    if mag_ge(n, d) {
        let _nlen = n.len();
        let mut dc = d.clone();
        assert(dc@ =~= d@);
        let mut count: usize = 0;
        proof {
            lemma_pow2_unfold(0);
            lemma_val_bound(n@);
        }
        loop
            invariant
                bn == b,
                b >= 2,
                val(n@) >= val(d@),
                n@.len() <= usize::MAX,
                val(dc@) >= 1,
                val(dc@) <= val(n@),
                val(dc@) >= pow2(count as nat),
                log_up(bn, val(n@), val(d@)) == count + log_up(bn, val(n@), val(dc@)),
                val(n@) < pow2(n@.len()),
            decreases val(n@) - val(dc@),
        {
            let next = mag_mul_u64(&dc, b);
            if !mag_ge(n, &next) {
                assert(log_up(bn, val(n@), val(dc@)) == 0);
                return count as i128;
            }
            proof {
                lemma_pow2_unfold(count as nat);
                assert(val(dc@) * bn >= 2 * val(dc@)) by (nonlinear_arith)
                    requires bn >= 2;
                lemma_bits_bound(val(next@), (count + 1) as nat, n@.len());
            }
            dc = next;
            count = count + 1;
        }
    } else {
        let _dlen = d.len();
        let mut nc = n.clone();
        assert(nc@ =~= n@);
        let mut k: usize = 0;
        proof {
            lemma_pow2_unfold(0);
            lemma_val_bound(d@);
        }
        loop
            invariant
                bn == b,
                b >= 2,
                val(n@) < val(d@),
                d@.len() <= usize::MAX,
                val(nc@) >= 1,
                val(nc@) < val(d@),
                val(nc@) >= pow2(k as nat),
                log_down(bn, val(n@), val(d@)) == k + log_down(bn, val(nc@), val(d@)),
                val(d@) < pow2(d@.len()),
            decreases val(d@) - val(nc@),
        {
            let next = mag_mul_u64(&nc, b);
            if mag_ge(&next, d) {
                assert(log_down(bn, val(nc@), val(d@)) == 1);
                return -((k as i128) + 1);
            }
            proof {
                lemma_pow2_unfold(k as nat);
                assert(val(nc@) * bn >= 2 * val(nc@)) by (nonlinear_arith)
                    requires bn >= 2;
                lemma_bits_bound(val(next@), (k + 1) as nat, d@.len());
            }
            nc = next;
            k = k + 1;
        }
    }
}

proof fn lemma_val_parity(s: Seq<bool>)
    ensures
        (val(s) % 2 == 1) == (s.len() > 0 && s[0]),
{
    if s.len() == 0 {
        lemma_val_empty(s);
    } else {
        let x = val(s.drop_first());
        assert((bit(s[0]) + 2 * x) % 2 == bit(s[0])) by (nonlinear_arith)
            requires bit(s[0]) <= 1;
    }
}

/// `n / d` rounded to nearest, ties to even, at `p` digits in base `b`:
/// returns `(m, e)` with `m * b^e` the rounded value.
pub fn mag_round_ratio(n: &Vec<bool>, d: &Vec<bool>, b: u64, p: u64) -> (r: (Vec<bool>, i128))
    requires
        b >= 2,
        p >= 1,
        val(n@) >= 1,
        val(d@) >= 1,
    ensures
        (val(r.0@), r.1 as int) == round_ratio(b as nat, p as nat, val(n@), val(d@)),
        -73786976294838206464 <= r.1 <= 73786976294838206464,
{
    let ghost bn = b as nat;
    let t = mag_ilog(n, d, b);
    let e: i128 = t - (p as i128) + 1;
    let ghost k = -e;
    let (num, den) = if e <= 0 {
        let pw = mag_power(b, (-e) as u128);
        (mag_mul(n, &pw), d.clone())
    } else {
        let pw = mag_power(b, e as u128);
        (n.clone(), mag_mul(d, &pw))
    };
    assert(val(num@) == scale_num(val(n@), bn, k));
    assert(val(den@) == scale_den(val(d@), bn, k));
    proof {
        crate::magnitude::lemma_power_positive(bn, e as nat);
    }
    assert(val(den@) >= 1) by (nonlinear_arith)
        requires
            val(den@) == val(d@) || val(den@) == val(d@) * power(bn, e as nat),
            val(d@) >= 1,
            power(bn, e as nat) >= 1;
    let (q, rem) = mag_divmod(&num, &den);
    let twice = mag_shift_in(&rem, false);
    let above = mag_ge(&twice, &den) && !mag_ge(&den, &twice);
    let tie = mag_ge(&twice, &den) && mag_ge(&den, &twice);
    let odd = q.len() > 0 && q[0];
    proof {
        lemma_val_parity(q@);
    }
    let m = if above || (tie && odd) {
        mag_add(&q, &mag_from_u64(1))
    } else {
        q
    };
    let top = mag_power(b, p as u128);
    if mag_ge(&m, &top) && mag_ge(&top, &m) {
        (mag_power(b, (p - 1) as u128), e + 1)
    } else {
        (m, e)
    }
}

} // verus!
