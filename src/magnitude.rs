use vstd::prelude::*;

verus! {

/// One bit as a number.
pub open spec fn bit(b: bool) -> nat {
    if b { 1 } else { 0 }
}

/// The number denoted by a bit string, least significant bit first.
pub open spec fn val(s: Seq<bool>) -> nat
    decreases s.len(),
{
    if s.len() == 0 {
        0
    } else {
        bit(s[0]) + 2 * val(s.drop_first())
    }
}

/// `b^e` over the naturals.
pub open spec fn power(b: nat, e: nat) -> nat
    decreases e,
{
    if e == 0 {
        1
    } else {
        b * power(b, (e - 1) as nat)
    }
}

/// `2^n` as a natural number.
pub open spec fn pow2(n: nat) -> nat {
    power(2, n)
}

pub proof fn lemma_pow2_unfold(n: nat)
    ensures
        pow2(n + 1) == 2 * pow2(n),
        pow2(0) == 1,
        pow2(n) >= 1,
{
    lemma_power_positive(2, n);
}

pub proof fn lemma_power_positive(b: nat, e: nat)
    requires
        b >= 1,
    ensures
        power(b, e) >= 1,
    decreases e,
{
    if e > 0 {
        lemma_power_positive(b, (e - 1) as nat);
        assert(b * power(b, (e - 1) as nat) >= 1) by (nonlinear_arith)
            requires b >= 1, power(b, (e - 1) as nat) >= 1;
    }
}

/// Appending a bit at the top adds it at weight `2^len`.
pub proof fn lemma_val_push(s: Seq<bool>, b: bool)
    ensures
        val(s.push(b)) == val(s) + bit(b) * pow2(s.len()),
    decreases s.len(),
{
    lemma_pow2_unfold(s.len());
    if s.len() == 0 {
        assert(s.push(b).drop_first() =~= Seq::<bool>::empty());
        assert(val(Seq::<bool>::empty()) == 0);
    } else {
        assert(s.push(b).drop_first() =~= s.drop_first().push(b));
        lemma_val_push(s.drop_first(), b);
        lemma_pow2_unfold((s.len() - 1) as nat);
        assert(2 * (bit(b) * pow2((s.len() - 1) as nat)) == bit(b) * pow2(s.len())) by (nonlinear_arith)
            requires pow2(s.len()) == 2 * pow2((s.len() - 1) as nat);
    }
}

/// A bit string of length `n` denotes a number below `2^n`.
pub proof fn lemma_val_bound(s: Seq<bool>)
    ensures
        val(s) < pow2(s.len()),
    decreases s.len(),
{
    lemma_pow2_unfold(s.len());
    if s.len() > 0 {
        lemma_val_bound(s.drop_first());
        lemma_pow2_unfold((s.len() - 1) as nat);
    }
}

/// Reading a suffix from its lowest bit: `val(s[i..]) == s[i] + 2 * val(s[i+1..])`.
pub proof fn lemma_val_suffix(s: Seq<bool>, i: int)
    requires
        0 <= i < s.len(),
    ensures
        val(s.subrange(i, s.len() as int)) == bit(s[i]) + 2 * val(s.subrange(i + 1, s.len() as int)),
{
    let t = s.subrange(i, s.len() as int);
    assert(t.drop_first() =~= s.subrange(i + 1, s.len() as int));
    assert(t[0] == s[i]);
}

/// `val(s) == val(s[..i]) + 2^i * val(s[i..])`.
pub proof fn lemma_val_split(s: Seq<bool>, i: int)
    requires
        0 <= i <= s.len(),
    ensures
        val(s) == val(s.subrange(0, i)) + pow2(i as nat) * val(s.subrange(i, s.len() as int)),
    decreases i,
{
    lemma_pow2_unfold(i as nat);
    if i == 0 {
        assert(s.subrange(0, 0).len() == 0);
        assert(s.subrange(0, s.len() as int) =~= s);
    } else {
        lemma_val_split(s, i - 1);
        lemma_val_suffix(s, i - 1);
        lemma_val_push(s.subrange(0, i - 1), s[i - 1]);
        assert(s.subrange(0, i - 1).push(s[i - 1]) =~= s.subrange(0, i));
        lemma_pow2_unfold((i - 1) as nat);
        let p = pow2((i - 1) as nat);
        let w = val(s.subrange(i, s.len() as int));
        assert(p * (bit(s[i - 1]) + 2 * w) == bit(s[i - 1]) * p + pow2(i as nat) * w) by (nonlinear_arith)
            requires pow2(i as nat) == 2 * p;
    }
}

pub proof fn lemma_val_empty(s: Seq<bool>)
    requires
        s.len() == 0,
    ensures
        val(s) == 0,
{
}

/// The bit string of a machine integer.
pub fn mag_from_u64(x: u64) -> (r: Vec<bool>)
    ensures
        val(r@) == x,
{
    let mut r: Vec<bool> = Vec::new();
    let mut y: u64 = x;
    proof {
        lemma_val_empty(r@);
        lemma_pow2_unfold(0);
    }
    while y > 0
        invariant
            val(r@) + pow2(r@.len()) * y == x,
        decreases y,
    {
        proof {
            lemma_val_push(r@, y % 2 == 1);
            lemma_pow2_unfold(r@.len());
            let p = pow2(r@.len());
            assert(p * y == p * bit(y % 2 == 1) + 2 * p * ((y / 2) as nat)) by (nonlinear_arith)
                requires y as nat == bit(y % 2 == 1) + 2 * ((y / 2) as nat);
        }
        r.push(y % 2 == 1);
        y = y / 2;
    }
    r
}

/// A copy of `a` extended with zero bits to at least `n` bits.
pub fn mag_padded(a: &Vec<bool>, n: usize) -> (r: Vec<bool>)
    ensures
        val(r@) == val(a@),
        r@.len() == if a@.len() >= n { a@.len() } else { n as nat },
{
    let mut r: Vec<bool> = a.clone();
    assert(r@ =~= a@);
    while r.len() < n
        invariant
            val(r@) == val(a@),
            a@.len() <= r@.len(),
            r@.len() <= n || r@.len() == a@.len(),
        decreases n - r@.len(),
    {
        proof {
            lemma_val_push(r@, false);
        }
        r.push(false);
    }
    r
}

/// `a + b`.
pub fn mag_add(a: &Vec<bool>, b: &Vec<bool>) -> (r: Vec<bool>)
    ensures
        val(r@) == val(a@) + val(b@),
{
    let n: usize = if a.len() >= b.len() { a.len() } else { b.len() };
    let x = mag_padded(a, n);
    let y = mag_padded(b, n);
    let mut r: Vec<bool> = Vec::new();
    let mut carry: bool = false;
    let mut i: usize = 0;
    while i < n
        invariant
            x@.len() == n,
            y@.len() == n,
            i <= n,
            r@.len() == i,
            val(r@) + bit(carry) * pow2(i as nat) == val(x@.take(i as int)) + val(y@.take(i as int)),
        decreases n - i,
    {
        let xi = x[i];
        let yi = y[i];
        let s: u8 = (if xi { 1u8 } else { 0u8 }) + (if yi { 1u8 } else { 0u8 }) + (if carry { 1u8 } else { 0u8 });
        proof {
            assert(x@.take(i + 1) =~= x@.take(i as int).push(xi));
            assert(y@.take(i + 1) =~= y@.take(i as int).push(yi));
            lemma_val_push(x@.take(i as int), xi);
            lemma_val_push(y@.take(i as int), yi);
            lemma_val_push(r@, s % 2 == 1);
            lemma_pow2_unfold(i as nat);
            let p = pow2(i as nat);
            assert(bit(xi) * p + bit(yi) * p + bit(carry) * p == bit(s % 2 == 1) * p + bit(s >= 2) * (2 * p))
                by (nonlinear_arith)
                requires bit(xi) + bit(yi) + bit(carry) == bit(s % 2 == 1) + 2 * bit(s >= 2);
        }
        r.push(s % 2 == 1);
        carry = s >= 2;
        i = i + 1;
    }
    assert(x@.take(n as int) =~= x@);
    assert(y@.take(n as int) =~= y@);
    proof {
        lemma_val_push(r@, carry);
    }
    r.push(carry);
    r
}

/// `a - b` over bit strings of one length `n`, with the borrow out of the top bit:
/// the result is `a - b + 2^n` when a borrow is left.
pub fn mag_sub_borrow(a: &Vec<bool>, b: &Vec<bool>) -> (r: (Vec<bool>, bool))
    requires
        a@.len() == b@.len(),
    ensures
        r.0@.len() == a@.len(),
        val(r.0@) == val(a@) - val(b@) + bit(r.1) * pow2(a@.len()),
        r.1 == (val(a@) < val(b@)),
{
    let n = a.len();
    let mut r: Vec<bool> = Vec::new();
    let mut borrow: bool = false;
    let mut i: usize = 0;
    while i < n
        invariant
            a@.len() == n,
            b@.len() == n,
            i <= n,
            r@.len() == i,
            val(r@) == val(a@.take(i as int)) - val(b@.take(i as int)) + bit(borrow) * pow2(i as nat),
        decreases n - i,
    {
        let ai = a[i];
        let bi = b[i];
        let d: i8 = (if ai { 1i8 } else { 0i8 }) - (if bi { 1i8 } else { 0i8 }) - (if borrow { 1i8 } else { 0i8 });
        let nb: bool = d < 0;
        let rb: bool = d == 1 || d == -1;
        proof {
            assert(a@.take(i + 1) =~= a@.take(i as int).push(ai));
            assert(b@.take(i + 1) =~= b@.take(i as int).push(bi));
            lemma_val_push(a@.take(i as int), ai);
            lemma_val_push(b@.take(i as int), bi);
            lemma_val_push(r@, rb);
            lemma_pow2_unfold(i as nat);
            let p = pow2(i as nat);
            assert(bit(ai) * p - bit(bi) * p - bit(borrow) * p == bit(rb) * p - bit(nb) * (2 * p))
                by (nonlinear_arith)
                requires bit(ai) - bit(bi) - bit(borrow) == bit(rb) - 2 * bit(nb);
        }
        r.push(rb);
        borrow = nb;
        i = i + 1;
    }
    assert(a@.take(n as int) =~= a@);
    assert(b@.take(n as int) =~= b@);
    proof {
        lemma_val_bound(r@);
        lemma_val_bound(a@);
        lemma_val_bound(b@);
    }
    (r, borrow)
}

/// `val(a) >= val(b)`.
pub fn mag_ge(a: &Vec<bool>, b: &Vec<bool>) -> (r: bool)
    ensures
        r == (val(a@) >= val(b@)),
{
    let n: usize = if a.len() >= b.len() { a.len() } else { b.len() };
    let x = mag_padded(a, n);
    let y = mag_padded(b, n);
    let (_, borrow) = mag_sub_borrow(&x, &y);
    !borrow
}

/// `a - b`, for `a >= b`.
pub fn mag_sub(a: &Vec<bool>, b: &Vec<bool>) -> (r: Vec<bool>)
    requires
        val(a@) >= val(b@),
    ensures
        val(r@) == val(a@) - val(b@),
{
    let n: usize = if a.len() >= b.len() { a.len() } else { b.len() };
    let x = mag_padded(a, n);
    let y = mag_padded(b, n);
    let (d, _) = mag_sub_borrow(&x, &y);
    d
}

/// `2 * a + b`.
pub fn mag_shift_in(a: &Vec<bool>, b: bool) -> (r: Vec<bool>)
    ensures
        val(r@) == 2 * val(a@) + bit(b),
        r@.len() == a@.len() + 1,
{
    let mut r: Vec<bool> = Vec::new();
    r.push(b);
    let mut i: usize = 0;
    while i < a.len()
        invariant
            i <= a@.len(),
            r@ =~= seq![b] + a@.take(i as int),
        decreases a@.len() - i,
    {
        r.push(a[i]);
        i = i + 1;
        assert(r@ =~= seq![b] + a@.take(i as int));
    }
    assert(a@.take(a@.len() as int) =~= a@);
    assert(r@.drop_first() =~= a@);
    r
}

/// `a * b`, by doubling and adding over the bits of `b` from the top.
pub fn mag_mul(a: &Vec<bool>, b: &Vec<bool>) -> (r: Vec<bool>)
    ensures
        val(r@) == val(a@) * val(b@),
{
    let n = b.len();
    let mut acc: Vec<bool> = Vec::new();
    let mut i: usize = n;
    proof {
        lemma_val_empty(acc@);
        lemma_val_empty(b@.subrange(n as int, n as int));
    }
    while i > 0
        invariant
            b@.len() == n,
            i <= n,
            val(acc@) == val(a@) * val(b@.subrange(i as int, n as int)),
        decreases i,
    {
        i = i - 1;
        let bi = b[i];
        proof {
            lemma_val_suffix(b@, i as int);
        }
        let doubled = mag_shift_in(&acc, false);
        if bi {
            acc = mag_add(&doubled, a);
        } else {
            acc = doubled;
        }
        proof {
            let t = val(b@.subrange(i + 1, n as int));
            assert(val(a@) * (bit(bi) + 2 * t) == 2 * (val(a@) * t) + bit(bi) * val(a@)) by (nonlinear_arith);
        }
    }
    assert(b@.subrange(0, n as int) =~= b@);
    acc
}

/// `a * k` for a machine integer `k`.
pub fn mag_mul_u64(a: &Vec<bool>, k: u64) -> (r: Vec<bool>)
    ensures
        val(r@) == val(a@) * k,
{
    let kb = mag_from_u64(k);
    mag_mul(a, &kb)
}

/// `val(a) == 0`.
pub fn mag_is_zero(a: &Vec<bool>) -> (r: bool)
    ensures
        r == (val(a@) == 0),
{
    let z: Vec<bool> = Vec::new();
    proof {
        lemma_val_empty(z@);
    }
    mag_ge(&z, a)
}

/// Quotient and remainder of `n` by `d`, by long division over the bits of `n`.
pub fn mag_divmod(n: &Vec<bool>, d: &Vec<bool>) -> (r: (Vec<bool>, Vec<bool>))
    requires
        val(d@) > 0,
    ensures
        val(r.0@) == val(n@) / val(d@),
        val(r.1@) == val(n@) % val(d@),
{
    let len = n.len();
    let mut q: Vec<bool> = Vec::new();
    let mut rem: Vec<bool> = Vec::new();
    let mut i: usize = len;
    proof {
        lemma_val_empty(q@);
        lemma_val_empty(rem@);
        lemma_val_empty(n@.subrange(len as int, len as int));
    }
    while i > 0
        invariant
            n@.len() == len,
            i <= len,
            val(d@) > 0,
            val(n@.subrange(i as int, len as int)) == val(q@) * val(d@) + val(rem@),
            val(rem@) < val(d@),
        decreases i,
    {
        i = i - 1;
        let ni = n[i];
        proof {
            lemma_val_suffix(n@, i as int);
        }
        let r2 = mag_shift_in(&rem, ni);
        let ghost qv = val(q@);
        let ghost dv = val(d@);
        let ghost rv = val(rem@);
        proof {
            assert(bit(ni) + 2 * (qv * dv + rv) == (2 * qv) * dv + (2 * rv + bit(ni))) by (nonlinear_arith);
        }
        if mag_ge(&r2, d) {
            rem = mag_sub(&r2, d);
            q = mag_shift_in(&q, true);
            proof {
                assert((2 * qv) * dv + (2 * rv + bit(ni)) == (2 * qv + 1) * dv + (2 * rv + bit(ni) - dv)) by (nonlinear_arith);
            }
        } else {
            rem = r2;
            q = mag_shift_in(&q, false);
        }
    }
    assert(n@.subrange(0, len as int) =~= n@);
    proof {
        vstd::arithmetic::div_mod::lemma_fundamental_div_mod_converse(
            val(n@) as int, val(d@) as int, val(q@) as int, val(rem@) as int);
    }
    (q, rem)
}

} // verus!
