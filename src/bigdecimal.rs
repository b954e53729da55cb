use vstd::prelude::*;

verus! {

use crate::magnitude::{val, pow2, mag_from_u64, mag_is_zero, mag_mul, mag_add, mag_sub, mag_ge};
use crate::rounding::{round_ratio, scale_num, scale_den, mag_power, mag_round_ratio};
use crate::radix::{
    ParseError, parse_literal, effective_radix, chars_of, parse_literal_exec, digit_chars, place_point,
    digit_chars_exec, place_point_exec, string_of, lemma_digit_chars_numeric, lemma_place_point_numeric,
};
use crate::rounding::{ilog, mag_ilog, lemma_decimal_log_bound, lemma_round_ratio_digits};

/// Precision, in bits, of values built without an explicit precision.
pub const DEFAULT_PRECISION: u64 = 53;

/// Largest exponent of a finite value's leading bit (a value below `2^EXP_MAX`);
/// larger results overflow to infinity.
pub const EXP_MAX: i64 = 4611686018427387903;

/// Smallest exponent of a finite value's leading bit (a value at least
/// `2^(EXP_MIN - 1)`); smaller results underflow to zero.
pub const EXP_MIN: i64 = -4611686018427387903;

/// The special state of a value.
#[derive(Clone, Copy, Debug, PartialEq, Eq, Structural)]
pub enum Kind {
    Nan,
    Infinite,
    Zero,
    Finite,
}

/// The mathematical content of a value: a finite value is
/// `(-1)^neg * mant * 2^exp`, with `mant` of exactly `prec` bits.
pub struct Model {
    pub prec: nat,
    pub neg: bool,
    pub kind: Kind,
    pub mant: nat,
    pub exp: int,
}

impl Model {
    pub open spec fn wf(self) -> bool {
        &&& 1 <= self.prec <= u64::MAX
        &&& self.kind is Finite ==> {
            &&& pow2((self.prec - 1) as nat) <= self.mant < pow2(self.prec)
            &&& EXP_MIN <= self.exp + self.prec <= EXP_MAX
        }
    }

    pub open spec fn is_nan(self) -> bool {
        self.kind is Nan
    }

    /// Zero or finite: a value with a place on the number line.
    pub open spec fn is_number(self) -> bool {
        self.kind is Zero || self.kind is Finite
    }
}

pub open spec fn nan_model(p: nat) -> Model {
    Model { prec: p, neg: false, kind: Kind::Nan, mant: 0, exp: 0 }
}

pub open spec fn inf_model(p: nat, neg: bool) -> Model {
    Model { prec: p, neg, kind: Kind::Infinite, mant: 0, exp: 0 }
}

pub open spec fn zero_model(p: nat, neg: bool) -> Model {
    Model { prec: p, neg, kind: Kind::Zero, mant: 0, exp: 0 }
}

pub open spec fn max_prec(x: Model, y: Model) -> nat {
    if x.prec >= y.prec { x.prec } else { y.prec }
}

/// `(-1)^neg * (n / d) * 2^base` rounded to nearest-even at `p` bits; a leading
/// bit past the exponent range overflows to infinity or underflows to zero.
pub open spec fn round_value(p: nat, neg: bool, n: nat, d: nat, base: int) -> Model {
    if n == 0 {
        zero_model(p, neg)
    } else {
        let (m, e) = round_ratio(2, p, n, d);
        if e + base + p > EXP_MAX {
            inf_model(p, neg)
        } else if e + base + p < EXP_MIN {
            zero_model(p, neg)
        } else {
            Model { prec: p, neg, kind: Kind::Finite, mant: m, exp: e + base }
        }
    }
}

/// The exponent at which two numbers are compared: the smaller finite exponent.
pub open spec fn common_base(x: Model, y: Model) -> int {
    if x.kind is Finite && y.kind is Finite {
        if x.exp <= y.exp { x.exp } else { y.exp }
    } else if x.kind is Finite {
        x.exp
    } else {
        y.exp
    }
}

/// A number's signed value in units of `2^base`, for `base` at most its exponent.
pub open spec fn scaled(x: Model, base: int) -> int {
    if x.kind is Finite {
        let v = x.mant * pow2((x.exp - base) as nat);
        if x.neg { -(v as int) } else { v as int }
    } else {
        0
    }
}

pub open spec fn abs(v: int) -> nat {
    if v < 0 { (-v) as nat } else { v as nat }
}

/// `x == y`: false when either is NaN; zeros of either sign are equal.
pub open spec fn equals(x: Model, y: Model) -> bool {
    &&& !x.is_nan()
    &&& !y.is_nan()
    &&& {
        ||| (x.kind is Infinite && y.kind is Infinite && x.neg == y.neg)
        ||| (x.is_number() && y.is_number() && scaled(x, common_base(x, y)) == scaled(y, common_base(x, y)))
    }
}

/// `x < y`: false when either is NaN.
pub open spec fn less(x: Model, y: Model) -> bool {
    &&& !x.is_nan()
    &&& !y.is_nan()
    &&& {
        ||| (x.kind is Infinite && x.neg && !(y.kind is Infinite && y.neg))
        ||| (y.kind is Infinite && !y.neg && !(x.kind is Infinite && !x.neg))
        ||| (x.is_number() && y.is_number() && scaled(x, common_base(x, y)) < scaled(y, common_base(x, y)))
    }
}

/// `-x`, exact, at the precision of `x`.
pub open spec fn neg_model(x: Model) -> Model {
    if x.is_nan() {
        x
    } else {
        Model { neg: !x.neg, ..x }
    }
}

/// `x + y` at the larger precision.
pub open spec fn add_model(x: Model, y: Model) -> Model {
    let p = max_prec(x, y);
    if x.is_nan() || y.is_nan() {
        nan_model(p)
    } else if x.kind is Infinite && y.kind is Infinite {
        if x.neg == y.neg { inf_model(p, x.neg) } else { nan_model(p) }
    } else if x.kind is Infinite {
        inf_model(p, x.neg)
    } else if y.kind is Infinite {
        inf_model(p, y.neg)
    } else {
        let b = common_base(x, y);
        let s = scaled(x, b) + scaled(y, b);
        if s == 0 {
            zero_model(p, false)
        } else {
            round_value(p, s < 0, abs(s), 1, b)
        }
    }
}

/// `x - y` at the larger precision.
pub open spec fn sub_model(x: Model, y: Model) -> Model {
    add_model(x, neg_model(y))
}

/// `x * y` at the larger precision.
pub open spec fn mul_model(x: Model, y: Model) -> Model {
    let p = max_prec(x, y);
    let neg = x.neg != y.neg;
    if x.is_nan() || y.is_nan() {
        nan_model(p)
    } else if (x.kind is Infinite && y.kind is Zero) || (x.kind is Zero && y.kind is Infinite) {
        nan_model(p)
    } else if x.kind is Infinite || y.kind is Infinite {
        inf_model(p, neg)
    } else if x.kind is Zero || y.kind is Zero {
        zero_model(p, neg)
    } else {
        round_value(p, neg, x.mant * y.mant, 1, x.exp + y.exp)
    }
}

/// `x / y` at the larger precision; a zero divisor gives NaN.
pub open spec fn div_model(x: Model, y: Model) -> Model {
    let p = max_prec(x, y);
    let neg = x.neg != y.neg;
    if x.is_nan() || y.is_nan() || y.kind is Zero || (x.kind is Infinite && y.kind is Infinite) {
        nan_model(p)
    } else if x.kind is Infinite {
        inf_model(p, neg)
    } else if y.kind is Infinite || x.kind is Zero {
        zero_model(p, neg)
    } else {
        round_value(p, neg, x.mant, y.mant, x.exp - y.exp)
    }
}

/// `x - y * trunc(x / y)`, computed exactly and rounded once at the larger
/// precision; it takes the sign of `x`.
pub open spec fn rem_model(x: Model, y: Model) -> Model {
    let p = max_prec(x, y);
    if x.is_nan() || y.is_nan() || y.kind is Zero || x.kind is Infinite {
        nan_model(p)
    } else if x.kind is Zero {
        zero_model(p, x.neg)
    } else if y.kind is Infinite {
        round_value(p, x.neg, x.mant, 1, x.exp)
    } else {
        let b = common_base(x, y);
        let r = abs(scaled(x, b)) % abs(scaled(y, b));
        if r == 0 {
            zero_model(p, x.neg)
        } else {
            round_value(p, x.neg, r, 1, b)
        }
    }
}

/// The value that text denotes in `radix`, rounded to the default precision.
pub open spec fn parse_value(s: Seq<char>, radix: nat) -> Result<Model, ParseError> {
    match parse_literal(s, radix) {
        Ok((neg, digits, scale)) => {
            let r = effective_radix(radix);
            Ok(round_value(DEFAULT_PRECISION as nat, neg, scale_num(digits, r, scale), scale_den(1, r, scale), 0))
        },
        Err(e) => Err(e),
    }
}

/// A machine integer at the default precision.
pub open spec fn int_value(n: int) -> Model {
    round_value(DEFAULT_PRECISION as nat, n < 0, abs(n), 1, 0)
}

/// How many significant decimal digits are written for `p` bits: `1 + ceil(p * log10(2))`,
/// enough to tell apart any two values of that precision.
pub open spec fn decimal_digit_count(p: nat) -> nat {
    (ilog(10, pow2(p), 1) + 2) as nat
}

/// A finite value in decimal: `(digits, point)` with the value close to
/// `0.digits * 10^point`, the digits rounded to nearest-even.
pub open spec fn decimal_form(x: Model) -> (nat, int) {
    let nd = decimal_digit_count(x.prec);
    let (dm, de) = round_ratio(10, nd, scale_num(x.mant, 2, x.exp), scale_den(1, 2, x.exp));
    (dm, de + nd)
}

/// The text of a value: `NaN`, `0`, `Inf`, `-Inf`, or an optional `-` followed by the
/// decimal digits with the point placed after the first `point` of them.
pub open spec fn format_model(x: Model) -> Seq<char> {
    if x.kind is Nan {
        seq!['N', 'a', 'N']
    } else if x.kind is Zero {
        seq!['0']
    } else if x.kind is Infinite {
        if x.neg { seq!['-', 'I', 'n', 'f'] } else { seq!['I', 'n', 'f'] }
    } else {
        let (dm, point) = decimal_form(x);
        (if x.neg { seq!['-'] } else { Seq::empty() }) + place_point(digit_chars(dm, decimal_digit_count(x.prec)), point)
    }
}

/// An arbitrary-precision binary floating-point number.
#[derive(Debug)]
pub struct BigDecimal {
    prec: u64,
    neg: bool,
    kind: Kind,
    mant: Vec<bool>,
    exp: i128,
}

impl View for BigDecimal {
    type V = Model;

    closed spec fn view(&self) -> Model {
        Model {
            prec: self.prec as nat,
            neg: if self.kind is Nan { false } else { self.neg },
            kind: self.kind,
            mant: if self.kind is Finite { val(self.mant@) } else { 0 },
            exp: if self.kind is Finite { self.exp as int } else { 0 },
        }
    }
}

impl BigDecimal {
    #[verifier::type_invariant]
    spec fn inv(self) -> bool {
        &&& self.prec >= 1
        &&& self.kind is Finite ==> {
            &&& pow2((self.prec - 1) as nat) <= val(self.mant@) < pow2(self.prec as nat)
            &&& EXP_MIN <= self.exp + self.prec <= EXP_MAX
        }
    }

    fn special(p: u64, neg: bool, kind: Kind) -> (r: BigDecimal)
        requires
            p >= 1,
            !(kind is Finite),
        ensures
            r@ == (Model { prec: p as nat, neg: if kind is Nan { false } else { neg }, kind, mant: 0, exp: 0 }),
    {
        BigDecimal { prec: p, neg, kind, mant: Vec::new(), exp: 0 }
    }

    /// `(-1)^neg * n * 2^base / d`, rounded to nearest-even at `p` bits.
    fn rounded(p: u64, neg: bool, n: &Vec<bool>, d: &Vec<bool>, base: i128) -> (r: BigDecimal)
        requires
            p >= 1,
            val(d@) >= 1,
            -0x400000000000000000 <= base <= 0x400000000000000000,
        ensures
            r@ == round_value(p as nat, neg, val(n@), val(d@), base as int),
    {
        if mag_is_zero(n) {
            return BigDecimal::special(p, neg, Kind::Zero);
        }
        let (m, e) = mag_round_ratio(n, d, 2, p);
        proof {
            lemma_round_ratio_digits(2, p as nat, val(n@), val(d@));
        }
        let ee: i128 = e + base;
        let top: i128 = ee + p as i128;
        if top > EXP_MAX as i128 {
            BigDecimal::special(p, neg, Kind::Infinite)
        } else if top < EXP_MIN as i128 {
            BigDecimal::special(p, neg, Kind::Zero)
        } else {
            BigDecimal { prec: p, neg, kind: Kind::Finite, mant: m, exp: ee }
        }
    }

    /// The signed value in units of `2^base`, as a magnitude and a sign;
    /// a negative sign comes only with a nonzero magnitude.
    fn scaled_parts(&self, base: i128) -> (r: (Vec<bool>, bool))
        requires
            self@.is_number(),
            self@.kind is Finite ==> base <= self@.exp,
            EXP_MIN - u64::MAX <= base,
        ensures
            self@.kind is Finite ==> val(r.0@) >= 1,
            scaled(self@, base as int) == (if r.1 { -(val(r.0@) as int) } else { val(r.0@) as int }),
            r.1 ==> val(r.0@) >= 1,
            val(r.0@) == abs(scaled(self@, base as int)),
    {
        proof {
            use_type_invariant(self);
        }
        if self.kind == Kind::Zero {
            let z: Vec<bool> = Vec::new();
            proof {
                crate::magnitude::lemma_val_empty(z@);
            }
            (z, false)
        } else {
            let shift: u128 = (self.exp - base) as u128;
            let pw = mag_power(2, shift);
            let m = mag_mul(&self.mant, &pw);
            proof {
                crate::magnitude::lemma_pow2_unfold(shift as nat);
                assert(val(self.mant@) * pow2(shift as nat) >= 1) by (nonlinear_arith)
                    requires val(self.mant@) >= 1, pow2(shift as nat) >= 1;
            }
            (m, self.neg)
        }
    }

    /// The exponent at which `self` and `other` are compared.
    fn common_base(&self, other: &BigDecimal) -> (b: i128)
        requires
            self@.is_number(),
            other@.is_number(),
        ensures
            b == common_base(self@, other@),
            EXP_MIN - u64::MAX <= b <= EXP_MAX,
    {
        proof {
            use_type_invariant(self);
            use_type_invariant(other);
        }
        if self.kind == Kind::Finite && other.kind == Kind::Finite {
            if self.exp <= other.exp { self.exp } else { other.exp }
        } else if self.kind == Kind::Finite {
            self.exp
        } else if other.kind == Kind::Finite {
            other.exp
        } else {
            0
        }
    }

    fn larger_precision(&self, other: &BigDecimal) -> (p: u64)
        ensures
            p == max_prec(self@, other@),
            p >= 1,
    {
        proof {
            use_type_invariant(self);
            use_type_invariant(other);
        }
        if self.prec >= other.prec { self.prec } else { other.prec }
    }

    /// `-self`, exact.
    pub fn neg(&self) -> (r: BigDecimal)
        ensures
            r@ == neg_model(self@),
    {
        proof {
            use_type_invariant(self);
        }
        let m = self.mant.clone();
        assert(m@ =~= self.mant@);
        BigDecimal {
            prec: self.prec,
            neg: if self.kind == Kind::Nan { false } else { !self.neg },
            kind: self.kind,
            mant: m,
            exp: self.exp,
        }
    }

    /// `self + rhs`, rounded to nearest-even at the larger precision.
    pub fn add(&self, rhs: &BigDecimal) -> (r: BigDecimal)
        ensures
            r@ == add_model(self@, rhs@),
    {
        let p = self.larger_precision(rhs);
        if self.kind == Kind::Nan || rhs.kind == Kind::Nan {
            return BigDecimal::special(p, false, Kind::Nan);
        }
        if self.kind == Kind::Infinite && rhs.kind == Kind::Infinite {
            if self.neg == rhs.neg {
                return BigDecimal::special(p, self.neg, Kind::Infinite);
            } else {
                return BigDecimal::special(p, false, Kind::Nan);
            }
        }
        if self.kind == Kind::Infinite {
            return BigDecimal::special(p, self.neg, Kind::Infinite);
        }
        if rhs.kind == Kind::Infinite {
            return BigDecimal::special(p, rhs.neg, Kind::Infinite);
        }
        let b = self.common_base(rhs);
        let (ax, nx) = self.scaled_parts(b);
        let (ay, ny) = rhs.scaled_parts(b);
        let (n, neg) = if nx == ny {
            (mag_add(&ax, &ay), nx)
        } else if mag_ge(&ax, &ay) {
            (mag_sub(&ax, &ay), nx)
        } else {
            (mag_sub(&ay, &ax), ny)
        };
        if mag_is_zero(&n) {
            BigDecimal::special(p, false, Kind::Zero)
        } else {
            BigDecimal::rounded(p, neg, &n, &mag_from_u64(1), b)
        }
    }

    /// `self - rhs`, rounded to nearest-even at the larger precision.
    pub fn sub(&self, rhs: &BigDecimal) -> (r: BigDecimal)
        ensures
            r@ == sub_model(self@, rhs@),
    {
        let m = rhs.neg();
        self.add(&m)
    }

    /// `self * rhs`, rounded to nearest-even at the larger precision.
    pub fn mul(&self, rhs: &BigDecimal) -> (r: BigDecimal)
        ensures
            r@ == mul_model(self@, rhs@),
    {
        proof {
            use_type_invariant(self);
            use_type_invariant(rhs);
        }
        let p = self.larger_precision(rhs);
        let neg = self.neg != rhs.neg;
        if self.kind == Kind::Nan || rhs.kind == Kind::Nan {
            BigDecimal::special(p, false, Kind::Nan)
        } else if (self.kind == Kind::Infinite && rhs.kind == Kind::Zero) || (self.kind == Kind::Zero
            && rhs.kind == Kind::Infinite) {
            BigDecimal::special(p, false, Kind::Nan)
        } else if self.kind == Kind::Infinite || rhs.kind == Kind::Infinite {
            BigDecimal::special(p, neg, Kind::Infinite)
        } else if self.kind == Kind::Zero || rhs.kind == Kind::Zero {
            BigDecimal::special(p, neg, Kind::Zero)
        } else {
            let n = mag_mul(&self.mant, &rhs.mant);
            BigDecimal::rounded(p, neg, &n, &mag_from_u64(1), self.exp + rhs.exp)
        }
    }

    /// `self / rhs`, rounded to nearest-even at the larger precision; NaN for a
    /// zero divisor.
    pub fn div(&self, rhs: &BigDecimal) -> (r: BigDecimal)
        ensures
            r@ == div_model(self@, rhs@),
    {
        proof {
            use_type_invariant(self);
            use_type_invariant(rhs);
        }
        let p = self.larger_precision(rhs);
        let neg = self.neg != rhs.neg;
        if self.kind == Kind::Nan || rhs.kind == Kind::Nan || rhs.kind == Kind::Zero || (self.kind
            == Kind::Infinite && rhs.kind == Kind::Infinite) {
            BigDecimal::special(p, false, Kind::Nan)
        } else if self.kind == Kind::Infinite {
            BigDecimal::special(p, neg, Kind::Infinite)
        } else if rhs.kind == Kind::Infinite || self.kind == Kind::Zero {
            BigDecimal::special(p, neg, Kind::Zero)
        } else {
            BigDecimal::rounded(p, neg, &self.mant, &rhs.mant, self.exp - rhs.exp)
        }
    }

    /// `self - rhs * trunc(self / rhs)`, rounded once at the larger precision,
    /// with the sign of `self`; NaN for a zero divisor.
    pub fn rem(&self, rhs: &BigDecimal) -> (r: BigDecimal)
        ensures
            r@ == rem_model(self@, rhs@),
    {
        proof {
            use_type_invariant(self);
            use_type_invariant(rhs);
        }
        let p = self.larger_precision(rhs);
        if self.kind == Kind::Nan || rhs.kind == Kind::Nan || rhs.kind == Kind::Zero || self.kind
            == Kind::Infinite {
            BigDecimal::special(p, false, Kind::Nan)
        } else if self.kind == Kind::Zero {
            BigDecimal::special(p, self.neg, Kind::Zero)
        } else if rhs.kind == Kind::Infinite {
            BigDecimal::rounded(p, self.neg, &self.mant, &mag_from_u64(1), self.exp)
        } else {
            let b = self.common_base(rhs);
            let (ax, _) = self.scaled_parts(b);
            let (ay, _) = rhs.scaled_parts(b);
            let (_, r) = crate::magnitude::mag_divmod(&ax, &ay);
            if mag_is_zero(&r) {
                BigDecimal::special(p, self.neg, Kind::Zero)
            } else {
                BigDecimal::rounded(p, self.neg, &r, &mag_from_u64(1), b)
            }
        }
    }

    /// `self == other`; false when either is NaN, and zeros of both signs are equal.
    pub fn equals(&self, other: &BigDecimal) -> (r: bool)
        ensures
            r == equals(self@, other@),
    {
        if self.kind == Kind::Nan || other.kind == Kind::Nan {
            return false;
        }
        if self.kind == Kind::Infinite || other.kind == Kind::Infinite {
            return self.kind == other.kind && self.neg == other.neg;
        }
        let b = self.common_base(other);
        let (ax, nx) = self.scaled_parts(b);
        let (ay, ny) = other.scaled_parts(b);
        nx == ny && mag_ge(&ax, &ay) && mag_ge(&ay, &ax)
    }

    /// `self < other`; false when either is NaN.
    pub fn less_than(&self, other: &BigDecimal) -> (r: bool)
        ensures
            r == less(self@, other@),
    {
        if self.kind == Kind::Nan || other.kind == Kind::Nan {
            return false;
        }
        if self.kind == Kind::Infinite || other.kind == Kind::Infinite {
            let x_low = self.kind == Kind::Infinite && self.neg;
            let y_low = other.kind == Kind::Infinite && other.neg;
            let x_high = self.kind == Kind::Infinite && !self.neg;
            let y_high = other.kind == Kind::Infinite && !other.neg;
            return (x_low && !y_low) || (y_high && !x_high);
        }
        let b = self.common_base(other);
        let (ax, nx) = self.scaled_parts(b);
        let (ay, ny) = other.scaled_parts(b);
        if nx && !ny {
            true
        } else if !nx && ny {
            false
        } else if !nx {
            !mag_ge(&ax, &ay)
        } else {
            !mag_ge(&ay, &ax)
        }
    }

    /// Zero at the default precision.
    pub fn zero() -> (r: BigDecimal)
        ensures
            r@ == zero_model(DEFAULT_PRECISION as nat, false),
    {
        BigDecimal::special(DEFAULT_PRECISION, false, Kind::Zero)
    }

    /// One at the default precision.
    pub fn one() -> (r: BigDecimal)
        ensures
            r@ == int_value(1),
    {
        BigDecimal::from_i64(1)
    }

    /// True exactly when `self` equals zero.
    pub fn is_zero(&self) -> (r: bool)
        ensures
            r == equals(self@, zero_model(DEFAULT_PRECISION as nat, false)),
            r == (self@.kind is Zero),
    {
        proof {
            use_type_invariant(self);
            crate::magnitude::lemma_pow2_unfold(0);
            crate::magnitude::lemma_pow2_unfold((self.prec - 1) as nat);
            if self@.kind is Finite {
                assert((self@.exp - self@.exp) as nat == 0);
                assert(self@.mant * pow2(0) == self@.mant);
                assert(scaled(self@, self@.exp) != 0);
            }
        }
        let z = BigDecimal::zero();
        self.equals(&z)
    }

    /// `n`, rounded to the default precision.
    pub fn from_i64(n: i64) -> (r: BigDecimal)
        ensures
            r@ == int_value(n as int),
    {
        let a: u64 = if n < 0 { (-(n as i128)) as u64 } else { n as u64 };
        BigDecimal::rounded(DEFAULT_PRECISION, n < 0, &mag_from_u64(a), &mag_from_u64(1), 0)
    }

    /// `n`, rounded to the default precision.
    pub fn from_u64(n: u64) -> (r: BigDecimal)
        ensures
            r@ == int_value(n as int),
    {
        BigDecimal::rounded(DEFAULT_PRECISION, false, &mag_from_u64(n), &mag_from_u64(1), 0)
    }

    /// Reads `s` in `radix` (0 for 10), rounded to the default precision.
    pub fn from_str_radix(s: &str, radix: u32) -> (r: Result<BigDecimal, ParseError>)
        ensures
            parse_value(s@, radix as nat) is Err ==> r is Err && r->Err_0 == parse_value(s@, radix as nat)->Err_0,
            parse_value(s@, radix as nat) is Ok ==> r is Ok && r->Ok_0@ == parse_value(s@, radix as nat)->Ok_0,
    {
        let cs = chars_of(s);
        match parse_literal_exec(&cs, radix) {
            Err(e) => Err(e),
            Ok((neg, digits, scale)) => {
                let rd: u64 = if radix == 0 { 10 } else { radix as u64 };
                let one = mag_from_u64(1);
                if scale >= 0 {
                    let pw = mag_power(rd, scale as u128);
                    let n = mag_mul(&digits, &pw);
                    Ok(BigDecimal::rounded(DEFAULT_PRECISION, neg, &n, &one, 0))
                } else {
                    let pw = mag_power(rd, (-(scale as i128)) as u128);
                    proof {
                        crate::magnitude::lemma_power_positive(rd as nat, (-scale) as nat);
                    }
                    Ok(BigDecimal::rounded(DEFAULT_PRECISION, neg, &digits, &pw, 0))
                }
            },
        }
    }

    /// Reads `s` in base 10.
    pub fn from_str(s: &str) -> (r: Result<BigDecimal, ParseError>)
        ensures
            parse_value(s@, 10) is Err ==> r is Err && r->Err_0 == parse_value(s@, 10)->Err_0,
            parse_value(s@, 10) is Ok ==> r is Ok && r->Ok_0@ == parse_value(s@, 10)->Ok_0,
    {
        BigDecimal::from_str_radix(s, 10)
    }

    /// The value in base 10.
    pub fn to_string(&self) -> (r: String)
        ensures
            r@ == format_model(self@),
    {
        proof {
            use_type_invariant(self);
            reveal_strlit("NaN");
            reveal_strlit("0");
            reveal_strlit("-Inf");
            reveal_strlit("Inf");
        }
        if self.kind == Kind::Nan {
            return String::from_str("NaN");
        } else if self.kind == Kind::Zero {
            return String::from_str("0");
        } else if self.kind == Kind::Infinite {
            return if self.neg { String::from_str("-Inf") } else { String::from_str("Inf") };
        }
        let one = mag_from_u64(1);
        let two_p = mag_power(2, self.prec as u128);
        proof {
            crate::magnitude::lemma_pow2_unfold(self.prec as nat);
            lemma_decimal_log_bound(self.prec as nat);
        }
        let t = mag_ilog(&two_p, &one, 10);
        let nd: u64 = (t + 2) as u64;
        proof {
            crate::magnitude::lemma_pow2_unfold(self.exp as nat);
        }
        let (n, d) = if self.exp >= 0 {
            (mag_mul(&self.mant, &mag_power(2, self.exp as u128)), mag_from_u64(1))
        } else {
            let pw = mag_power(2, (-self.exp) as u128);
            proof {
                crate::magnitude::lemma_pow2_unfold((-self.exp) as nat);
            }
            (self.mant.clone(), pw)
        };
        proof {
            assert(val(n@) >= 1) by (nonlinear_arith)
                requires
                    val(n@) == val(self.mant@) || val(n@) == val(self.mant@) * pow2(self.exp as nat),
                    val(self.mant@) >= 1,
                    pow2(self.exp as nat) >= 1;
        }
        let (dm, de) = mag_round_ratio(&n, &d, 10, nd);
        let ds = digit_chars_exec(&dm, nd);
        let point: i128 = de + nd as i128;
        let body = place_point_exec(&ds, point);
        let mut cs: Vec<char> = Vec::new();
        if self.neg {
            cs.push('-');
        }
        let mut i: usize = 0;
        let ghost pre = cs@;
        while i < body.len()
            invariant
                i <= body@.len(),
                cs@ == pre + body@.take(i as int),
            decreases body@.len() - i,
        {
            cs.push(body[i]);
            i = i + 1;
            assert(cs@ =~= pre + body@.take(i as int));
        }
        assert(body@.take(body@.len() as int) =~= body@);
        proof {
            lemma_digit_chars_numeric(val(dm@), nd as nat);
            lemma_place_point_numeric(ds@, point as int);
            assert forall|j: int| 0 <= j < cs@.len() implies crate::radix::is_number_char(#[trigger] cs@[j]) by {
                if j >= pre.len() {
                    assert(cs@[j] == body@[j - pre.len()]);
                }
            }
        }
        string_of(&cs)
    }

    /// Zero at `prec` bits; a zero precision is refused.
    pub fn new(prec: u64) -> (r: Result<BigDecimal, ConstructionError>)
        ensures
            prec == 0 ==> r == Err::<BigDecimal, ConstructionError>(ConstructionError::ZeroPrecision),
            prec >= 1 ==> (r matches Ok(v) && v@ == zero_model(prec as nat, false)),
    {
        if prec == 0 {
            Err(ConstructionError::ZeroPrecision)
        } else {
            Ok(BigDecimal::special(prec, false, Kind::Zero))
        }
    }

    /// Zero at the default precision.
    pub fn with_default_precision() -> (r: BigDecimal)
        ensures
            r@ == zero_model(DEFAULT_PRECISION as nat, false),
    {
        BigDecimal::special(DEFAULT_PRECISION, false, Kind::Zero)
    }

    pub fn get_precision(&self) -> (r: u64)
        ensures
            r == self@.prec,
    {
        self.prec
    }

    pub fn kind(&self) -> (r: Kind)
        ensures
            r == self@.kind,
    {
        self.kind
    }

    pub fn is_nan(&self) -> (r: bool)
        ensures
            r == self@.is_nan(),
    {
        self.kind == Kind::Nan
    }
}

impl PartialEq for BigDecimal {
    fn eq(&self, other: &BigDecimal) -> (r: bool) {
        self.equals(other)
    }
}

impl vstd::std_specs::cmp::PartialEqSpecImpl for BigDecimal {
    open spec fn obeys_eq_spec() -> bool {
        true
    }

    open spec fn eq_spec(&self, other: &BigDecimal) -> bool {
        equals(self@, other@)
    }
}

/// The order of `x` and `y`: none when either is NaN.
pub open spec fn compare(x: Model, y: Model) -> Option<core::cmp::Ordering> {
    if x.is_nan() || y.is_nan() {
        None
    } else if less(x, y) {
        Some(core::cmp::Ordering::Less)
    } else if equals(x, y) {
        Some(core::cmp::Ordering::Equal)
    } else {
        Some(core::cmp::Ordering::Greater)
    }
}

impl PartialOrd for BigDecimal {
    fn partial_cmp(&self, other: &BigDecimal) -> (r: Option<core::cmp::Ordering>) {
        if self.is_nan() || other.is_nan() {
            None
        } else if self.less_than(other) {
            Some(core::cmp::Ordering::Less)
        } else if self.equals(other) {
            Some(core::cmp::Ordering::Equal)
        } else {
            Some(core::cmp::Ordering::Greater)
        }
    }
}

impl vstd::std_specs::cmp::PartialOrdSpecImpl for BigDecimal {
    open spec fn obeys_partial_cmp_spec() -> bool {
        true
    }

    open spec fn partial_cmp_spec(&self, other: &BigDecimal) -> Option<core::cmp::Ordering> {
        compare(self@, other@)
    }
}

impl Default for BigDecimal {
    fn default() -> (r: BigDecimal)
        ensures
            r@ == zero_model(DEFAULT_PRECISION as nat, false),
    {
        BigDecimal::zero()
    }
}

/// Why a value could not be built.
#[derive(Clone, Copy, Debug, PartialEq, Eq, Structural)]
pub enum ConstructionError {
    ZeroPrecision,
}

} // verus!
