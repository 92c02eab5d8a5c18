//! Whole numbers from the number texts of map files: the value truncated towards zero
//! and clamped to a range `0..=cap`. The number is read exactly: it is not first
//! rounded to a binary floating-point value, so `16777217` gives 16777217 and
//! `0.9999999999` gives 0.
use vstd::prelude::*;
use crate::chars::lower_of;
use crate::tgm::grammar::is_digit;

verus! {

/// The value of a digit character.
pub open spec fn digit_value(c: char) -> int {
    (c as u32) - ('0' as u32)
}

/// The value of the first `k` digits of `d`, the digits past its end counting as zeros.
pub open spec fn prefix_value(d: Seq<char>, k: int) -> int
    decreases k,
{
    if k <= 0 {
        0
    } else {
        prefix_value(d, k - 1) * 10 + if k - 1 < d.len() { digit_value(d[k - 1]) } else { 0 }
    }
}

/// The value of a run of decimal digits.
pub open spec fn digits_number(d: Seq<char>) -> int {
    prefix_value(d, d.len() as int)
}

/// All characters are decimal digits.
pub open spec fn all_digits(d: Seq<char>) -> bool {
    forall|i: int| 0 <= i < d.len() ==> is_digit(#[trigger] d[i])
}

/// The parts of a number text `[sign] int [. frac] [e [sign] exp]`: whether it is
/// negative, its mantissa digits (integer then fraction digits), the number of integer
/// digits, and its exponent.
pub open spec fn decimal_parts(t: Seq<char>) -> (bool, Seq<char>, int, int) {
    let neg = t.len() > 0 && t[0] == '-';
    let start: int = if t.len() > 0 && (t[0] == '-' || t[0] == '+') { 1 } else { 0 };
    let int_end = run_end(t, start);
    let frac_start = if int_end < t.len() && t[int_end] == '.' { int_end + 1 } else { int_end };
    let frac_end = run_end(t, frac_start);
    let mantissa = t.subrange(start, int_end) + t.subrange(frac_start, frac_end);
    let exp_start = if frac_end < t.len() && (t[frac_end] == 'e' || t[frac_end] == 'E') { frac_end + 1 } else { t.len() as int };
    let exp_neg = exp_start < t.len() && t[exp_start] == '-';
    let exp_digits_start = if exp_start < t.len() && (t[exp_start] == '-' || t[exp_start] == '+') { exp_start + 1 } else { exp_start };
    let e = digits_number(t.subrange(exp_digits_start, run_end(t, exp_digits_start)));
    (neg, mantissa, int_end - start, if exp_neg { -e } else { e })
}

/// The end of the run of digits starting at `i`.
pub open spec fn run_end(t: Seq<char>, i: int) -> int
    decreases t.len() - i,
{
    if 0 <= i < t.len() && is_digit(t[i]) {
        run_end(t, i + 1)
    } else {
        i
    }
}

/// `nan`, in any case.
pub open spec fn is_nan_text(t: Seq<char>) -> bool {
    t.len() == 3 && lower_of(t[0]) == 'n' && lower_of(t[1]) == 'a' && lower_of(t[2]) == 'n'
}

/// `inf`, in any case.
pub open spec fn is_inf_text(t: Seq<char>) -> bool {
    t.len() == 3 && lower_of(t[0]) == 'i' && lower_of(t[1]) == 'n' && lower_of(t[2]) == 'f'
}

/// The number written as `t`, taken exactly (with no rounding to a binary float),
/// truncated towards zero and clamped to `0..=cap`; not-a-number counts as 0 and
/// infinity as `cap`.
pub open spec fn whole_value(t: Seq<char>, cap: int) -> int {
    if is_nan_text(t) {
        0
    } else if is_inf_text(t) {
        cap
    } else {
        let (neg, mantissa, int_digits, exp) = decimal_parts(t);
        let v = prefix_value(mantissa, int_digits + exp);
        if neg || v <= 0 {
            0
        } else if v > cap {
            cap
        } else {
            v
        }
    }
}

proof fn lemma_prefix_value_nonneg(d: Seq<char>, k: int)
    requires
        all_digits(d),
    ensures
        prefix_value(d, k) >= 0,
    decreases k,
{
    if k > 0 {
        lemma_prefix_value_nonneg(d, k - 1);
    }
}

/// Taking more digits never lowers the value.
proof fn lemma_prefix_value_grows(d: Seq<char>, k: int, l: int)
    requires
        all_digits(d),
        k <= l,
    ensures
        prefix_value(d, k) <= prefix_value(d, l),
        prefix_value(d, k) > 0 ==> prefix_value(d, l) >= prefix_value(d, k),
    decreases l - k,
{
    if k < l {
        lemma_prefix_value_grows(d, k, l - 1);
        lemma_prefix_value_nonneg(d, l - 1);
    }
}

/// Past the end of the digits a value of zero stays zero.
proof fn lemma_prefix_value_zero(d: Seq<char>, k: int)
    requires
        k >= d.len(),
        prefix_value(d, d.len() as int) == 0,
    ensures
        prefix_value(d, k) == 0,
    decreases k,
{
    if k > d.len() {
        lemma_prefix_value_zero(d, k - 1);
    }
}

proof fn lemma_padding_grows(d: Seq<char>, m: int)
    requires
        all_digits(d),
        m >= 0,
        prefix_value(d, d.len() as int) > 0,
    ensures
        prefix_value(d, d.len() + m) >= pow10(m),
    decreases m,
{
    if m > 0 {
        lemma_padding_grows(d, m - 1);
    }
}

proof fn lemma_padding_large(d: Seq<char>, k: int)
    requires
        all_digits(d),
        k >= d.len() + 11,
        prefix_value(d, d.len() as int) > 0,
    ensures
        prefix_value(d, k) > u32::MAX,
{
    lemma_padding_grows(d, 11);
    reveal_with_fuel(pow10, 12);
    assert(pow10(11) == 100000000000);
    lemma_prefix_value_grows(d, d.len() + 11int, k);
}

/// Ten to the power `n`.
pub open spec fn pow10(n: int) -> int
    decreases n,
{
    if n <= 0 {
        1
    } else {
        10 * pow10(n - 1)
    }
}

fn run_end_exec(t: &Vec<char>, i: usize) -> (r: usize)
    requires
        i <= t.len(),
    ensures
        r == run_end(t@, i as int),
        i <= r <= t.len(),
        forall|j: int| i <= j < r ==> is_digit(#[trigger] t@[j]),
{
    let mut k = i;
    while k < t.len() && '0' <= t[k] && t[k] <= '9'
        invariant
            i <= k <= t.len(),
            run_end(t@, k as int) == run_end(t@, i as int),
            forall|j: int| i <= j < k ==> is_digit(#[trigger] t@[j]),
        decreases t.len() - k,
    {
        k = k + 1;
    }
    k
}

fn is_word_no_case(t: &Vec<char>, a: char, b: char, c: char) -> (r: bool)
    ensures
        r == (t@.len() == 3 && lower_of(t@[0]) == a && lower_of(t@[1]) == b && lower_of(t@[2]) == c),
{
    t.len() == 3 && crate::chars::char_to_lower(t[0]) == a && crate::chars::char_to_lower(t[1]) == b
        && crate::chars::char_to_lower(t[2]) == c
}

/// Exponents are counted up to this bound; past it every mantissa digit lies far from
/// the decimal point.
const EXPONENT_CAP: i128 = 0x10000000000000000000000;

/// `v` clamped to `0..=cap`.
pub open spec fn clamped(v: int, cap: int) -> int {
    if v <= 0 {
        0
    } else if v > cap {
        cap
    } else {
        v
    }
}

/// Far enough past the digits, the clamped value no longer depends on the position.
proof fn lemma_far_positions(d: Seq<char>, k: int, l: int, cap: int)
    requires
        all_digits(d),
        k >= d.len() + 11,
        l >= d.len() + 11,
        0 <= cap <= u32::MAX,
    ensures
        clamped(prefix_value(d, k), cap) == clamped(prefix_value(d, l), cap),
{
    if prefix_value(d, d.len() as int) > 0 {
        lemma_padding_large(d, k);
        lemma_padding_large(d, l);
    } else {
        lemma_prefix_value_nonneg(d, d.len() as int);
        lemma_prefix_value_zero(d, k);
        lemma_prefix_value_zero(d, l);
    }
}

/// The value of the first `pos` digits of `m` (zeros past its end), clamped to `0..=cap`.
fn shifted_value(m: &Vec<char>, pos: i128, cap: u32) -> (r: u32)
    requires
        all_digits(m@),
    ensures
        r == clamped(prefix_value(m@, pos as int), cap as int),
{
    if pos <= 0 {
        return 0;
    }
    let n = m.len();
    let mut v: u64 = 0;
    let mut j: u128 = 0;
    while (j as i128) < pos && j < (n as u128) + 11
        invariant
            all_digits(m@),
            n == m@.len(),
            j <= n + 11,
            j as int <= pos,
            v == prefix_value(m@, j as int),
            v <= cap,
        decreases n + 11 - j,
    {
        let digit: u64 = if j < n as u128 { (m[j as usize] as u32 - '0' as u32) as u64 } else { 0 };
        let next = v * 10 + digit;
        if next > cap as u64 {
            proof {
                lemma_prefix_value_grows(m@, j as int + 1, pos as int);
            }
            return cap;
        }
        v = next;
        j = j + 1;
    }
    if (j as i128) < pos {
        proof {
            lemma_far_positions(m@, n as int + 11, pos as int, cap as int);
            lemma_prefix_value_nonneg(m@, n as int + 11);
        }
        if v == 0 {
            return 0;
        }
        return v as u32;
    }
    proof {
        lemma_prefix_value_nonneg(m@, j as int);
    }
    if v == 0 {
        0
    } else {
        v as u32
    }
}

/// The parts of a number text, the exponent counted up to [`EXPONENT_CAP`].
fn decimal_parts_exec(t: &Vec<char>) -> (r: (bool, Vec<char>, usize, bool, i128))
    ensures
        ({
            let (neg, mantissa, int_digits, exp) = decimal_parts(t@);
            &&& r.0 == neg
            &&& r.1@ == mantissa
            &&& r.2 == int_digits
            &&& all_digits(mantissa)
            &&& 0 <= r.4 <= EXPONENT_CAP
            &&& r.4 < EXPONENT_CAP ==> exp == (if r.3 { -r.4 } else { r.4 as int })
            &&& r.4 == EXPONENT_CAP ==> (if r.3 { exp <= -EXPONENT_CAP } else { exp >= EXPONENT_CAP })
        }),
{
    let ghost parts = decimal_parts(t@);
    let neg = t.len() > 0 && t[0] == '-';
    let start: usize = if t.len() > 0 && (t[0] == '-' || t[0] == '+') { 1 } else { 0 };
    let int_end = run_end_exec(t, start);
    let frac_start = if int_end < t.len() && t[int_end] == '.' { int_end + 1 } else { int_end };
    let frac_end = run_end_exec(t, frac_start);
    let mut mantissa: Vec<char> = Vec::new();
    let mut i = start;
    while i < int_end
        invariant
            start <= i <= int_end <= t.len(),
            mantissa@ == t@.subrange(start as int, i as int),
        decreases int_end - i,
    {
        mantissa.push(t[i]);
        i = i + 1;
    }
    let mut i = frac_start;
    while i < frac_end
        invariant
            frac_start <= i <= frac_end <= t.len(),
            mantissa@ == t@.subrange(start as int, int_end as int) + t@.subrange(frac_start as int, i as int),
        decreases frac_end - i,
    {
        mantissa.push(t[i]);
        i = i + 1;
    }
    assert(all_digits(mantissa@)) by {
        assert forall|j: int| 0 <= j < mantissa@.len() implies is_digit(#[trigger] mantissa@[j]) by {
            if j < int_end - start {
                assert(mantissa@[j] == t@[start + j]);
            } else {
                assert(mantissa@[j] == t@[frac_start + j - (int_end - start)]);
            }
        }
    }
    let exp_start = if frac_end < t.len() && (t[frac_end] == 'e' || t[frac_end] == 'E') { frac_end + 1 } else { t.len() };
    let exp_neg = exp_start < t.len() && t[exp_start] == '-';
    let exp_digits_start = if exp_start < t.len() && (t[exp_start] == '-' || t[exp_start] == '+') { exp_start + 1 } else { exp_start };
    let exp_end = run_end_exec(t, exp_digits_start);
    let ghost exp_digits = t@.subrange(exp_digits_start as int, exp_end as int);
    assert(all_digits(exp_digits));
    let mut e: i128 = 0;
    let mut k = exp_digits_start;
    while k < exp_end
        invariant
            exp_digits_start <= k <= exp_end <= t.len(),
            exp_digits == t@.subrange(exp_digits_start as int, exp_end as int),
            all_digits(exp_digits),
            0 <= e <= EXPONENT_CAP,
            e < EXPONENT_CAP ==> e == prefix_value(exp_digits, k - exp_digits_start),
            e == EXPONENT_CAP ==> prefix_value(exp_digits, k - exp_digits_start) >= EXPONENT_CAP,
        decreases exp_end - k,
    {
        assert(exp_digits[k - exp_digits_start] == t@[k as int]);
        let d = (t[k] as u32 - '0' as u32) as i128;
        proof {
            lemma_prefix_value_nonneg(exp_digits, k - exp_digits_start);
        }
        if e < EXPONENT_CAP {
            let next = e * 10 + d;
            if next >= EXPONENT_CAP {
                e = EXPONENT_CAP;
            } else {
                e = next;
            }
        }
        k = k + 1;
    }
    (neg, mantissa, int_end - start, exp_neg, e)
}

/// The number written as `t`, truncated towards zero and clamped to `0..=cap`.
pub fn whole_number(t: &Vec<char>, cap: u32) -> (r: u32)
    ensures
        r == whole_value(t@, cap as int),
{
    if is_word_no_case(t, 'n', 'a', 'n') {
        return 0;
    }
    if is_word_no_case(t, 'i', 'n', 'f') {
        return cap;
    }
    let (neg, mantissa, int_digits, exp_neg, e) = decimal_parts_exec(t);
    let ghost parts = decimal_parts(t@);
    if neg {
        return 0;
    }
    let n = mantissa.len();
    let pos: i128 = if exp_neg { int_digits as i128 - e } else { int_digits as i128 + e };
    let r = shifted_value(&mantissa, pos, cap);
    proof {
        let exact = parts.2 + parts.3;
        if e == EXPONENT_CAP {
            if exp_neg {
                lemma_prefix_value_zero_before(mantissa@, exact);
                lemma_prefix_value_zero_before(mantissa@, pos as int);
            } else {
                lemma_far_positions(mantissa@, pos as int, exact, cap as int);
            }
        }
    }
    r
}

/// Before the first digit the value is zero.
proof fn lemma_prefix_value_zero_before(d: Seq<char>, k: int)
    requires
        k <= 0,
    ensures
        prefix_value(d, k) == 0,
{
}

} // verus!
