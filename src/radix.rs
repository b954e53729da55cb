use vstd::prelude::*;

verus! {

use crate::magnitude::{val, power, mag_from_u64, mag_mul_u64, mag_add, mag_mul, lemma_val_empty};
use crate::rounding::mag_power;

/// Why a text could not be read as a number.
#[derive(Clone, Copy, Debug, PartialEq, Eq, Structural)]
pub enum ParseError {
    /// The radix is neither 0 nor in `2..=62`.
    InvalidRadix,
    /// Neither the integer nor the fractional part holds a digit.
    NoDigits,
    /// An exponent marker without a well-formed signed decimal exponent after it.
    InvalidExponent,
    /// The exponent does not fit in 64 bits.
    ExponentOutOfRange,
    /// Characters follow the number that are not part of it.
    TrailingCharacters,
}

/// The radix that text is read in: 0 stands for 10.
pub open spec fn effective_radix(radix: nat) -> nat {
    if radix == 0 { 10 } else { radix }
}

pub open spec fn radix_ok(radix: nat) -> bool {
    radix == 0 || (2 <= radix <= 62)
}

/// The value of a digit character in `radix`: `0-9`, then `A-Z`, then `a-z`
/// (letters of either case are the same digit up to radix 36).
pub open spec fn char_digit(c: char, radix: nat) -> Option<nat> {
    let u = c as u32 as int;
    let v: int = if 48 <= u <= 57 {
        u - 48
    } else if 65 <= u <= 90 {
        u - 65 + 10
    } else if 97 <= u <= 122 {
        if radix <= 36 { u - 97 + 10 } else { u - 97 + 36 }
    } else {
        -1
    };
    if 0 <= v < radix { Some(v as nat) } else { None }
}

/// The end of the run of `radix` digits that starts at `i`.
#[verifier::opaque]
pub open spec fn run_end(s: Seq<char>, i: int, radix: nat) -> int
    decreases s.len() - i,
{
    if 0 <= i < s.len() && char_digit(s[i], radix) is Some {
        run_end(s, i + 1, radix)
    } else {
        i
    }
}

/// The number that the digits `s[i..j]` denote in `radix`.
#[verifier::opaque]
pub open spec fn digits_value(s: Seq<char>, i: int, j: int, radix: nat) -> nat
    decreases j - i,
{
    if i < j {
        digits_value(s, i, j - 1, radix) * radix + match char_digit(s[j - 1], radix) {
            Some(d) => d,
            None => 0,
        }
    } else {
        0
    }
}

pub open spec fn is_exp_marker(c: char, radix: nat) -> bool {
    c == '@' || (radix <= 10 && (c == 'e' || c == 'E'))
}

/// Where the digits of a number that starts at `i0` lie: the end of its integer
/// digits, and the start and end of its fractional digits (after a point, if any).
pub open spec fn mantissa_bounds(s: Seq<char>, r: nat, i0: int) -> (int, int, int) {
    let j0 = run_end(s, i0, r);
    let point = j0 < s.len() && s[j0] == '.';
    let f0 = if point { j0 + 1 } else { j0 };
    let j1 = if point { run_end(s, f0, r) } else { j0 };
    (j0, f0, j1)
}

/// The integer and fractional digits together, read as one integer.
pub open spec fn mantissa_value(s: Seq<char>, r: nat, i0: int) -> nat {
    let (j0, f0, j1) = mantissa_bounds(s, r, i0);
    digits_value(s, i0, j0, r) * power(r, (j1 - f0) as nat) + digits_value(s, f0, j1, r)
}

/// The exponent that starts at `k0` (an optional sign and decimal digits running to
/// the end of `s`), less `frac`.
pub open spec fn exponent_part(s: Seq<char>, k0: int, frac: int) -> Result<int, ParseError> {
    let esigned = k0 < s.len() && (s[k0] == '+' || s[k0] == '-');
    let eneg = k0 < s.len() && s[k0] == '-';
    let k1 = if esigned { k0 + 1 } else { k0 };
    let k2 = run_end(s, k1, 10);
    let ev = digits_value(s, k1, k2, 10);
    let scale = (if eneg { -ev } else { ev as int }) - frac;
    if k2 == k1 || k2 != s.len() {
        Err(ParseError::InvalidExponent)
    } else if ev > i64::MAX || scale < i64::MIN {
        Err(ParseError::ExponentOutOfRange)
    } else {
        Ok(scale)
    }
}

/// The text read as `(-1)^neg * digits * radix^scale`, as `(neg, digits, scale)`.
///
/// The form is an optional sign, integer digits, an optional point and fractional
/// digits (at least one digit in all), and an optional exponent: a marker (`@`, or
/// `e`/`E` up to radix 10), an optional sign and decimal digits, counting powers of
/// the radix.
pub open spec fn parse_literal(s: Seq<char>, radix: nat) -> Result<(bool, nat, int), ParseError> {
    let r = effective_radix(radix);
    let neg = s.len() > 0 && s[0] == '-';
    let i0: int = if s.len() > 0 && (s[0] == '+' || s[0] == '-') { 1 } else { 0 };
    let (j0, f0, j1) = mantissa_bounds(s, r, i0);
    let frac = j1 - f0;
    if !radix_ok(radix) {
        Err(ParseError::InvalidRadix)
    } else if j0 == i0 && j1 == f0 {
        Err(ParseError::NoDigits)
    } else {
        let tail = if j1 == s.len() {
            if -frac < i64::MIN { Err(ParseError::ExponentOutOfRange) } else { Ok(-frac) }
        } else if is_exp_marker(s[j1], r) {
            exponent_part(s, j1 + 1, frac)
        } else {
            Err(ParseError::TrailingCharacters)
        };
        match tail {
            Ok(scale) => Ok((neg, mantissa_value(s, r, i0), scale)),
            Err(e) => Err(e),
        }
    }
}

proof fn lemma_run_end_bounds(s: Seq<char>, i: int, radix: nat)
    requires
        0 <= i <= s.len(),
    ensures
        i <= run_end(s, i, radix) <= s.len(),
    decreases s.len() - i,
{
    reveal(run_end);
    if i < s.len() && char_digit(s[i], radix) is Some {
        lemma_run_end_bounds(s, i + 1, radix);
    }
}

/// The digit value of `c` in `radix`.
pub fn digit_of(c: char, radix: u32) -> (r: Option<u32>)
    ensures
        r matches Some(d) ==> char_digit(c, radix as nat) == Some(d as nat),
        r is None ==> char_digit(c, radix as nat) is None,
{
    let u = c as u32;
    let v: i64 = if 48 <= u && u <= 57 {
        u as i64 - 48
    } else if 65 <= u && u <= 90 {
        u as i64 - 65 + 10
    } else if 97 <= u && u <= 122 {
        if radix <= 36 { u as i64 - 97 + 10 } else { u as i64 - 97 + 36 }
    } else {
        -1
    };
    if 0 <= v && v < radix as i64 { Some(v as u32) } else { None }
}

/// Reads the run of `radix` digits from `i`: its end and the number it denotes.
fn scan_digits(s: &Vec<char>, i: usize, radix: u32) -> (r: (usize, Vec<bool>))
    requires
        i <= s@.len(),
    ensures
        r.0 == run_end(s@, i as int, radix as nat),
        val(r.1@) == digits_value(s@, i as int, r.0 as int, radix as nat),
{
    let mut j: usize = i;
    let mut acc: Vec<bool> = Vec::new();
    proof {
        lemma_val_empty(acc@);
        reveal(run_end);
        reveal(digits_value);
    }
    while j < s.len()
        invariant
            i <= j <= s@.len(),
            run_end(s@, i as int, radix as nat) == run_end(s@, j as int, radix as nat),
            val(acc@) == digits_value(s@, i as int, j as int, radix as nat),
        decreases s@.len() - j,
    {
        proof {
            reveal(run_end);
            reveal(digits_value);
        }
        match digit_of(s[j], radix) {
            Some(d) => {
                let shifted = mag_mul_u64(&acc, radix as u64);
                acc = mag_add(&shifted, &mag_from_u64(d as u64));
                j = j + 1;
            },
            None => {
                return (j, acc);
            },
        }
    }
    proof {
        reveal(run_end);
    }
    (j, acc)
}

/// Reads the run of decimal digits from `i`: its end, and its value when that is at
/// most `i64::MAX` (`None` when it is larger).
fn scan_exponent(s: &Vec<char>, i: usize) -> (r: (usize, Option<u64>))
    requires
        i <= s@.len(),
    ensures
        r.0 == run_end(s@, i as int, 10),
        r.1 matches Some(v) ==> v == digits_value(s@, i as int, r.0 as int, 10) && v <= i64::MAX,
        r.1 is None ==> digits_value(s@, i as int, r.0 as int, 10) > i64::MAX,
{
    let mut j: usize = i;
    let mut acc: u64 = 0;
    let mut over: bool = false;
    proof {
        reveal(run_end);
        reveal(digits_value);
    }
    while j < s.len()
        invariant
            i <= j <= s@.len(),
            run_end(s@, i as int, 10) == run_end(s@, j as int, 10),
            !over ==> acc == digits_value(s@, i as int, j as int, 10) && acc <= i64::MAX,
            over ==> digits_value(s@, i as int, j as int, 10) > i64::MAX,
        decreases s@.len() - j,
    {
        proof {
            reveal(run_end);
            reveal(digits_value);
        }
        match digit_of(s[j], 10) {
            Some(d) => {
                if !over {
                    let next: u128 = acc as u128 * 10 + d as u128;
                    if next > i64::MAX as u128 {
                        over = true;
                    } else {
                        acc = next as u64;
                    }
                }
                j = j + 1;
            },
            None => {
                return if over { (j, None) } else { (j, Some(acc)) };
            },
        }
    }
    proof {
        reveal(run_end);
    }
    if over { (j, None) } else { (j, Some(acc)) }
}

/// The characters of `s`, one per element.
pub fn chars_of(s: &str) -> (r: Vec<char>)
    ensures
        r@ == s@,
{
    let n = s.unicode_len();
    let mut v: Vec<char> = Vec::new();
    let mut i: usize = 0;
    while i < n
        invariant
            n == s@.len(),
            i <= n,
            v@ == s@.take(i as int),
        decreases n - i,
    {
        v.push(s.get_char(i));
        i = i + 1;
        assert(v@ =~= s@.take(i as int));
    }
    assert(s@.take(n as int) =~= s@);
    v
}

/// Reads the integer and fractional digits of a number that starts at `i0`.
fn parse_mantissa(s: &Vec<char>, r: u32, i0: usize) -> (res: (usize, usize, usize, Vec<bool>))
    requires
        i0 <= s@.len(),
    ensures
        (res.0 as int, res.1 as int, res.2 as int) == mantissa_bounds(s@, r as nat, i0 as int),
        val(res.3@) == mantissa_value(s@, r as nat, i0 as int),
        i0 <= res.0 <= res.1 <= res.2 <= s@.len(),
{
    let len = s.len();
    let (j0, int_digits) = scan_digits(s, i0, r);
    proof {
        lemma_run_end_bounds(s@, i0 as int, r as nat);
    }
    let point = j0 < len && s[j0] == '.';
    let f0: usize = if point { j0 + 1 } else { j0 };
    let (j1, frac_digits) = if point {
        scan_digits(s, f0, r)
    } else {
        let z: Vec<bool> = Vec::new();
        proof {
            lemma_val_empty(z@);
            reveal(digits_value);
        }
        (j0, z)
    };
    proof {
        lemma_run_end_bounds(s@, f0 as int, r as nat);
    }
    let pw = mag_power(r as u64, (j1 - f0) as u128);
    let digits = mag_add(&mag_mul(&int_digits, &pw), &frac_digits);
    (j0, f0, j1, digits)
}

/// Reads `s` in `radix` (0 for 10) as `(neg, digits, scale)`: the number
/// `(-1)^neg * digits * radix^scale`.
pub fn parse_literal_exec(s: &Vec<char>, radix: u32) -> (r: Result<(bool, Vec<bool>, i64), ParseError>)
    ensures
        parse_literal(s@, radix as nat) is Err ==> r is Err && r->Err_0 == parse_literal(s@, radix as nat)->Err_0,
        parse_literal(s@, radix as nat) is Ok ==> r is Ok && ({
            let (neg, digits, scale) = parse_literal(s@, radix as nat)->Ok_0;
            &&& r->Ok_0.0 == neg
            &&& val(r->Ok_0.1@) == digits
            &&& r->Ok_0.2 as int == scale
        }),
{
    if !(radix == 0 || (2 <= radix && radix <= 62)) {
        return Err(ParseError::InvalidRadix);
    }
    let r: u32 = if radix == 0 { 10 } else { radix };
    let len = s.len();
    let neg = len > 0 && s[0] == '-';
    let i0: usize = if len > 0 && (s[0] == '+' || s[0] == '-') { 1 } else { 0 };
    let (j0, f0, j1, digits) = parse_mantissa(s, r, i0);
    if j0 == i0 && j1 == f0 {
        return Err(ParseError::NoDigits);
    }
    let frac: usize = j1 - f0;
    let tail: Result<i64, ParseError> = if j1 == len {
        let scale: i128 = -(frac as i128);
        if scale < i64::MIN as i128 {
            Err(ParseError::ExponentOutOfRange)
        } else {
            Ok(scale as i64)
        }
    } else {
        let c = s[j1];
        if c == '@' || (r <= 10 && (c == 'e' || c == 'E')) {
            parse_exponent(s, j1 + 1, frac)
        } else {
            Err(ParseError::TrailingCharacters)
        }
    };
    match tail {
        Ok(scale) => Ok((neg, digits, scale)),
        Err(e) => Err(e),
    }
}

/// Reads the signed decimal exponent that starts at `k0` and runs to the end of
/// `s`, less `frac`.
fn parse_exponent(s: &Vec<char>, k0: usize, frac: usize) -> (r: Result<i64, ParseError>)
    requires
        1 <= k0 <= s@.len(),
    ensures
        exponent_part(s@, k0 as int, frac as int) is Err ==> r == Err::<i64, ParseError>(exponent_part(s@, k0 as int, frac as int)->Err_0),
        exponent_part(s@, k0 as int, frac as int) is Ok ==> r is Ok && r->Ok_0 as int == exponent_part(s@, k0 as int, frac as int)->Ok_0,
{
    let len = s.len();
    let esigned = k0 < len && (s[k0] == '+' || s[k0] == '-');
    let eneg = k0 < len && s[k0] == '-';
    let k1: usize = if esigned { k0 + 1 } else { k0 };
    let (k2, ev) = scan_exponent(s, k1);
    if k2 == k1 || k2 != len {
        return Err(ParseError::InvalidExponent);
    }
    match ev {
        None => Err(ParseError::ExponentOutOfRange),
        Some(v) => {
            let e: i128 = if eneg { -(v as i128) } else { v as i128 };
            let scale: i128 = e - frac as i128;
            if scale < i64::MIN as i128 {
                return Err(ParseError::ExponentOutOfRange);
            }
            Ok(scale as i64)
        },
    }
}

/// The decimal digit character of `d < 10`.
pub open spec fn digit_char(d: nat) -> char {
    seq!['0', '1', '2', '3', '4', '5', '6', '7', '8', '9'][d as int]
}

/// The lowest `k` decimal digits of `v`, most significant first.
pub open spec fn digit_chars(v: nat, k: nat) -> Seq<char>
    decreases k,
{
    if k == 0 {
        Seq::empty()
    } else {
        digit_chars(v / 10, (k - 1) as nat).push(digit_char(v % 10))
    }
}

pub open spec fn zeros(k: int) -> Seq<char> {
    Seq::new(if k > 0 { k as nat } else { 0 }, |i: int| '0')
}

/// The digits `ds` with a point after the first `e` of them, padded with zeros
/// when `e` falls outside them.
pub open spec fn place_point(ds: Seq<char>, e: int) -> Seq<char> {
    if e <= 0 {
        seq!['.'] + zeros(-e) + ds
    } else if e >= ds.len() {
        ds + zeros(e - ds.len()) + seq!['.']
    } else {
        ds.take(e) + seq!['.'] + ds.skip(e)
    }
}

/// A magnitude below `2^64` as a machine integer.
fn mag_to_u64(a: &Vec<bool>) -> (r: u64)
    requires
        val(a@) <= u64::MAX,
    ensures
        r == val(a@),
{
    let n = a.len();
    let mut acc: u64 = 0;
    let mut i: usize = n;
    proof {
        lemma_val_empty(a@.subrange(n as int, n as int));
        crate::magnitude::lemma_val_split(a@, n as int);
    }
    while i > 0
        invariant
            a@.len() == n,
            i <= n,
            acc == val(a@.subrange(i as int, n as int)),
            val(a@) <= u64::MAX,
            val(a@) == val(a@.subrange(0, i as int)) + crate::magnitude::pow2(i as nat) * val(a@.subrange(i as int, n as int)),
        decreases i,
    {
        i = i - 1;
        proof {
            crate::magnitude::lemma_val_suffix(a@, i as int);
            crate::magnitude::lemma_val_split(a@, i as int);
            crate::magnitude::lemma_pow2_unfold(i as nat);
            let v = val(a@.subrange(i + 1, n as int));
            let w = val(a@.subrange(i as int, n as int));
            assert(val(a@.subrange(0, i as int)) + crate::magnitude::pow2(i as nat) * w >= w) by (nonlinear_arith)
                requires crate::magnitude::pow2(i as nat) >= 1;
        }
        acc = 2 * acc + if a[i] { 1 } else { 0 };
    }
    assert(a@.subrange(0, n as int) =~= a@);
    acc
}

/// `digit_chars(val(v), k)`.
pub fn digit_chars_exec(v: &Vec<bool>, k: u64) -> (r: Vec<char>)
    ensures
        r@ == digit_chars(val(v@), k as nat),
    decreases k,
{
    if k == 0 {
        return Vec::new();
    }
    let ten = mag_from_u64(10);
    let (q, rem) = crate::magnitude::mag_divmod(v, &ten);
    let mut out = digit_chars_exec(&q, k - 1);
    let d = mag_to_u64(&rem);
    let digits: [char; 10] = ['0', '1', '2', '3', '4', '5', '6', '7', '8', '9'];
    let c = digits[d as usize];
    assert(c == digit_char(val(v@) % 10));
    out.push(c);
    out
}

/// Appends `c`, one of the characters a number is written with.
fn push_char(out: &mut String, c: char)
    requires
        c == '-' || c == '.' || c == '0' || c == '1' || c == '2' || c == '3' || c == '4' || c == '5'
            || c == '6' || c == '7' || c == '8' || c == '9',
    ensures
        final(out)@ == old(out)@.push(c),
{
    let t: &str = if c == '-' {
        "-"
    } else if c == '.' {
        "."
    } else if c == '0' {
        "0"
    } else if c == '1' {
        "1"
    } else if c == '2' {
        "2"
    } else if c == '3' {
        "3"
    } else if c == '4' {
        "4"
    } else if c == '5' {
        "5"
    } else if c == '6' {
        "6"
    } else if c == '7' {
        "7"
    } else if c == '8' {
        "8"
    } else {
        "9"
    };
    proof {
        reveal_strlit("-");
        reveal_strlit(".");
        reveal_strlit("0");
        reveal_strlit("1");
        reveal_strlit("2");
        reveal_strlit("3");
        reveal_strlit("4");
        reveal_strlit("5");
        reveal_strlit("6");
        reveal_strlit("7");
        reveal_strlit("8");
        reveal_strlit("9");
    }
    out.append(t);
    assert(out@ =~= old(out)@.push(c));
}

pub open spec fn is_number_char(c: char) -> bool {
    c == '-' || c == '.' || c == '0' || c == '1' || c == '2' || c == '3' || c == '4' || c == '5'
        || c == '6' || c == '7' || c == '8' || c == '9'
}

pub proof fn lemma_digit_chars_numeric(v: nat, k: nat)
    ensures
        forall|i: int| 0 <= i < digit_chars(v, k).len() ==> is_number_char(#[trigger] digit_chars(v, k)[i]),
        digit_chars(v, k).len() == k,
    decreases k,
{
    if k > 0 {
        lemma_digit_chars_numeric(v / 10, (k - 1) as nat);
        let d = v % 10;
        assert(is_number_char(digit_char(d))) by {
            assert(d < 10);
            let ds = seq!['0', '1', '2', '3', '4', '5', '6', '7', '8', '9'];
            assert(ds[d as int] == digit_char(d));
        }
        let prev = digit_chars(v / 10, (k - 1) as nat);
        assert(digit_chars(v, k) == prev.push(digit_char(d)));
        assert forall|i: int| 0 <= i < digit_chars(v, k).len() implies is_number_char(#[trigger] digit_chars(v, k)[i]) by {
            if i < prev.len() {
                assert(digit_chars(v, k)[i] == prev[i]);
            }
        }
    }
}

pub proof fn lemma_place_point_numeric(ds: Seq<char>, e: int)
    requires
        forall|i: int| 0 <= i < ds.len() ==> is_number_char(#[trigger] ds[i]),
    ensures
        forall|i: int| 0 <= i < place_point(ds, e).len() ==> is_number_char(#[trigger] place_point(ds, e)[i]),
{
    let r = place_point(ds, e);
    assert forall|i: int| 0 <= i < r.len() implies is_number_char(#[trigger] r[i]) by {
        if e <= 0 {
            let z = zeros(-e);
            assert(r == seq!['.'] + z + ds);
            if i == 0 {
            } else if i < 1 + z.len() {
                assert(r[i] == z[i - 1]);
            } else {
                assert(r[i] == ds[i - 1 - z.len()]);
            }
        } else if e >= ds.len() {
            let z = zeros(e - ds.len());
            if i < ds.len() {
                assert(r[i] == ds[i]);
            } else if i < ds.len() + z.len() {
                assert(r[i] == z[i - ds.len()]);
            }
        } else {
            if i < e {
                assert(r[i] == ds[i]);
            } else if i > e {
                assert(r[i] == ds[i - 1]);
            }
        }
    }
}

/// The characters `cs` as a string.
pub fn string_of(cs: &Vec<char>) -> (r: String)
    requires
        forall|i: int| 0 <= i < cs@.len() ==> is_number_char(#[trigger] cs@[i]),
    ensures
        r@ == cs@,
{
    let mut out = String::new();
    let mut i: usize = 0;
    while i < cs.len()
        invariant
            i <= cs@.len(),
            out@ == cs@.take(i as int),
            forall|j: int| 0 <= j < cs@.len() ==> is_number_char(#[trigger] cs@[j]),
        decreases cs@.len() - i,
    {
        let c = cs[i];
        assert(is_number_char(cs@[i as int]));
        push_char(&mut out, c);
        i = i + 1;
        assert(out@ =~= cs@.take(i as int));
    }
    assert(cs@.take(cs@.len() as int) =~= cs@);
    out
}

/// `place_point(ds, e)`.
pub fn place_point_exec(ds: &Vec<char>, e: i128) -> (r: Vec<char>)
    requires
        -0x10000000000000000000000000 <= e <= 0x10000000000000000000000000,
    ensures
        r@ == place_point(ds@, e as int),
{
    let n = ds.len();
    let mut out: Vec<char> = Vec::new();
    if e <= 0 {
        out.push('.');
        let mut k: i128 = 0;
        while k < -e
            invariant
                -0x10000000000000000000000000 <= e <= 0,
                0 <= k <= -e,
                out@ == seq!['.'] + zeros(k as int),
            decreases -e - k,
        {
            out.push('0');
            k = k + 1;
            assert(out@ =~= seq!['.'] + zeros(k as int));
        }
        let mut i: usize = 0;
        while i < n
            invariant
                n == ds@.len(),
                i <= n,
                out@ == seq!['.'] + zeros(-e as int) + ds@.take(i as int),
            decreases n - i,
        {
            out.push(ds[i]);
            i = i + 1;
            assert(out@ =~= seq!['.'] + zeros(-e as int) + ds@.take(i as int));
        }
        assert(ds@.take(n as int) =~= ds@);
    } else {
        let mut i: usize = 0;
        while i < n
            invariant
                n == ds@.len(),
                e > 0,
                i <= n,
                i as int <= e ==> out@ == ds@.take(i as int),
                i as int > e ==> out@ == ds@.take(e as int) + seq!['.'] + ds@.subrange(e as int, i as int),
            decreases n - i,
        {
            if i as i128 == e {
                out.push('.');
            }
            out.push(ds[i]);
            i = i + 1;
            assert(i as int <= e ==> out@ =~= ds@.take(i as int));
            assert(i as int > e ==> out@ =~= ds@.take(e as int) + seq!['.'] + ds@.subrange(e as int, i as int));
        }
        if (n as i128) <= e {
            assert(ds@.take(n as int) =~= ds@);
            let mut k: i128 = n as i128;
            while k < e
                invariant
                    n as int <= k <= e,
                    n == ds@.len(),
                    out@ == ds@ + zeros(k - n),
                decreases e - k,
            {
                out.push('0');
                k = k + 1;
                assert(out@ =~= ds@ + zeros(k - n));
            }
            out.push('.');
        } else {
            assert(ds@.subrange(e as int, n as int) =~= ds@.skip(e as int));
        }
    }
    out
}

} // verus!
