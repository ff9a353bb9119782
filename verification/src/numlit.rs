//! Classification of JSON number literals.
//!
//! A literal `[-+]? D+ ('.' D+)? ([eE] [-+]? D+)?` denotes the rational
//! `m * 10^e`, where `m` is the integer written by the integer and fraction
//! digits run together and `e` is the exponent value minus the number of
//! fraction digits. Schema inference needs exactly two facts about that
//! rational: whether it is an integer, and whether it is an integer of
//! magnitude at most the safe-integer bound. This module computes both,
//! exactly, for arbitrarily long digit runs.

use vstd::prelude::*;
use vstd::arithmetic::div_mod::{
    lemma_fundamental_div_mod, lemma_mod_multiples_basic, lemma_truncate_middle,
    lemma_div_by_multiple, lemma_small_mod, lemma_div_of0, lemma_mod_multiples_vanish,
    lemma_mod_division_less_than_divisor,
};
use vstd::arithmetic::mul::lemma_mul_inequality;

verus! {

/// Largest integer magnitude that schema inference maps to a 64-bit integer
/// field rather than a double: 2^53 - 1.
pub const MAX_SAFE_INTEGER: u64 = 9007199254740991;

/// Exponent values are accumulated exactly up to this cap; at the cap the
/// literal's scale is already so far out of range that the classification no
/// longer depends on the exact value. The cap exceeds any possible digit
/// count, so comparisons against lengths stay decisive.
pub const EXP_CAP: i128 = 10_000_000_000_000_000_000_000_000;

pub open spec fn pow10(k: nat) -> int
    decreases k,
{
    if k == 0 {
        1
    } else {
        10 * pow10((k - 1) as nat)
    }
}

pub open spec fn is_digit(c: char) -> bool {
    48 <= c as u32 <= 57
}

pub open spec fn digit_val(c: char) -> int {
    c as u32 - 48
}

/// Digit `k` of the combined integer-and-fraction digit string, whose integer
/// part sits at `[a, b)` of the input and whose fraction part sits at `[c, _)`.
pub open spec fn cdigit(s: Seq<char>, a: int, b: int, c: int, k: int) -> char {
    if k < b - a {
        s[a + k]
    } else {
        s[c + (k - (b - a))]
    }
}

/// Value of combined digits `[i, j)`, most significant digit first.
pub open spec fn cdv(s: Seq<char>, a: int, b: int, c: int, i: int, j: int) -> int
    decreases j - i,
{
    if i < j {
        cdv(s, a, b, c, i, j - 1) * 10 + digit_val(cdigit(s, a, b, c, j - 1))
    } else {
        0
    }
}

/// Value of the plain digit run `s[i..j)`, most significant digit first.
pub open spec fn digits_val(s: Seq<char>, i: int, j: int) -> int {
    cdv(s, i, j, j, 0, j - i)
}

pub open spec fn all_cdigits(s: Seq<char>, a: int, b: int, c: int, i: int, j: int) -> bool {
    forall|k: int| i <= k < j ==> is_digit(#[trigger] cdigit(s, a, b, c, k))
}

/// The rational `m * 10^e` is an integer.
pub open spec fn spec_integral(m: int, e: int) -> bool {
    e >= 0 || m % pow10((-e) as nat) == 0
}

/// `m * 10^e` truncated toward zero, for `m >= 0`.
pub open spec fn spec_magnitude(m: int, e: int) -> int {
    if e >= 0 {
        m * pow10(e as nat)
    } else {
        m / pow10((-e) as nat)
    }
}

/// The rational `m * 10^e` is an integer within the safe-integer bound.
pub open spec fn spec_in_bound(m: int, e: int) -> bool {
    spec_integral(m, e) && spec_magnitude(m, e) <= MAX_SAFE_INTEGER
}

pub proof fn lemma_pow10_pos(k: nat)
    ensures
        pow10(k) >= 1,
    decreases k,
{
    if k > 0 {
        lemma_pow10_pos((k - 1) as nat);
    }
}

pub proof fn lemma_pow10_add(i: nat, j: nat)
    ensures
        pow10(i + j) == pow10(i) * pow10(j),
    decreases i,
{
    if i == 0 {
    } else {
        lemma_pow10_add((i - 1) as nat, j);
        assert(10 * (pow10((i - 1) as nat) * pow10(j)) == (10 * pow10((i - 1) as nat)) * pow10(
            j,
        )) by (nonlinear_arith);
    }
}

pub proof fn lemma_pow10_mono(i: nat, j: nat)
    requires
        i <= j,
    ensures
        pow10(i) <= pow10(j),
{
    lemma_pow10_add(i, (j - i) as nat);
    lemma_pow10_pos(i);
    lemma_pow10_pos((j - i) as nat);
    assert(pow10(i) * 1 <= pow10(i) * pow10((j - i) as nat)) by (nonlinear_arith)
        requires
            pow10(i) >= 1 && pow10((j - i) as nat) >= 1,
    ;
}

/// Combined digits have values between 0 and one below the next power of ten.
pub proof fn lemma_cdv_bounds(s: Seq<char>, a: int, b: int, c: int, i: int, j: int)
    requires
        i <= j,
        all_cdigits(s, a, b, c, i, j),
    ensures
        0 <= cdv(s, a, b, c, i, j) < pow10((j - i) as nat),
    decreases j - i,
{
    if i < j {
        lemma_cdv_bounds(s, a, b, c, i, j - 1);
    }
}

/// A run whose first digit is not zero is at least the power of ten of its
/// remaining length.
pub proof fn lemma_cdv_first_nonzero(s: Seq<char>, a: int, b: int, c: int, i: int, j: int)
    requires
        i < j,
        all_cdigits(s, a, b, c, i, j),
        digit_val(cdigit(s, a, b, c, i)) >= 1,
    ensures
        cdv(s, a, b, c, i, j) >= pow10((j - i - 1) as nat),
    decreases j - i,
{
    assert(is_digit(cdigit(s, a, b, c, j - 1)));
    if i < j - 1 {
        lemma_cdv_first_nonzero(s, a, b, c, i, j - 1);
        let prev = cdv(s, a, b, c, i, j - 1);
        let p = pow10((j - i - 2) as nat);
        assert(pow10((j - i - 1) as nat) == 10 * p);
        assert(prev * 10 >= p * 10) by (nonlinear_arith)
            requires
                prev >= p,
        ;
    } else {
        assert(cdv(s, a, b, c, i, j) == cdv(s, a, b, c, i, i) * 10 + digit_val(
            cdigit(s, a, b, c, i),
        ));
    }
}

/// A run of zero digits has value zero.
pub proof fn lemma_cdv_zeros(s: Seq<char>, a: int, b: int, c: int, i: int, j: int)
    requires
        i <= j,
        forall|k: int| i <= k < j ==> digit_val(#[trigger] cdigit(s, a, b, c, k)) == 0,
    ensures
        cdv(s, a, b, c, i, j) == 0,
    decreases j - i,
{
    if i < j {
        lemma_cdv_zeros(s, a, b, c, i, j - 1);
    }
}

/// Leading zero digits do not change the value.
pub proof fn lemma_cdv_skip_leading(s: Seq<char>, a: int, b: int, c: int, i: int, k: int, j: int)
    requires
        i <= k <= j,
        forall|q: int| i <= q < k ==> digit_val(#[trigger] cdigit(s, a, b, c, q)) == 0,
    ensures
        cdv(s, a, b, c, i, j) == cdv(s, a, b, c, k, j),
    decreases j - k,
{
    if j > k {
        lemma_cdv_skip_leading(s, a, b, c, i, k, j - 1);
    } else {
        lemma_cdv_zeros(s, a, b, c, i, j);
    }
}

/// Trailing zero digits multiply the value by a power of ten.
pub proof fn lemma_cdv_trailing_zeros(s: Seq<char>, a: int, b: int, c: int, i: int, k: int, j: int)
    requires
        i <= k <= j,
        forall|q: int| k <= q < j ==> digit_val(#[trigger] cdigit(s, a, b, c, q)) == 0,
    ensures
        cdv(s, a, b, c, i, j) == cdv(s, a, b, c, i, k) * pow10((j - k) as nat),
    decreases j - k,
{
    if j > k {
        lemma_cdv_trailing_zeros(s, a, b, c, i, k, j - 1);
        assert((cdv(s, a, b, c, i, k) * pow10((j - 1 - k) as nat)) * 10 == cdv(s, a, b, c, i, k)
            * (10 * pow10((j - 1 - k) as nat))) by (nonlinear_arith);
    }
}

/// The value of a digit run, modulo ten, is its last digit.
pub proof fn lemma_cdv_mod10(s: Seq<char>, a: int, b: int, c: int, i: int, j: int)
    requires
        i < j,
        all_cdigits(s, a, b, c, i, j),
    ensures
        cdv(s, a, b, c, i, j) % 10 == digit_val(cdigit(s, a, b, c, j - 1)),
{
    let prev = cdv(s, a, b, c, i, j - 1);
    let dg = digit_val(cdigit(s, a, b, c, j - 1));
    lemma_mod_multiples_vanish(prev, dg, 10);
    lemma_small_mod(dg as nat, 10);
}

/// A positive integer whose last digit is not zero is not divisible by any
/// positive power of ten.
proof fn lemma_nondiv_pow10(sig: int, q: nat)
    requires
        sig >= 0,
        sig % 10 != 0,
        q >= 1,
    ensures
        sig % pow10(q) != 0,
{
    lemma_pow10_pos((q - 1) as nat);
    if sig % pow10(q) == 0 {
        lemma_fundamental_div_mod(sig, pow10(q));
        let f = sig / pow10(q);
        assert(sig == pow10(q) * f);
        assert(pow10(q) == 10 * pow10((q - 1) as nat));
        assert((10 * pow10((q - 1) as nat)) * f == (pow10((q - 1) as nat) * f) * 10)
            by (nonlinear_arith);
        lemma_mod_multiples_basic(pow10((q - 1) as nat) * f, 10);
    }
}

/// `(sig * 10^t) % 10^(t+r) == 10^t * (sig % 10^r)`.
proof fn lemma_mod_shift(sig: int, t: nat, r: nat)
    requires
        sig >= 0,
    ensures
        (sig * pow10(t)) % pow10(t + r) == pow10(t) * (sig % pow10(r)),
{
    lemma_pow10_pos(t);
    lemma_pow10_pos(r);
    lemma_pow10_add(t, r);
    lemma_truncate_middle(sig, pow10(t), pow10(r));
    assert(pow10(t) * sig == sig * pow10(t)) by (nonlinear_arith);
}

/// `(sig * 10^t) / 10^q == sig * 10^(t-q)` for `q <= t`.
proof fn lemma_div_shift(sig: int, t: nat, q: nat)
    requires
        sig >= 0,
        q <= t,
    ensures
        (sig * pow10(t)) / pow10(q) == sig * pow10((t - q) as nat),
{
    lemma_pow10_pos(q);
    lemma_pow10_pos((t - q) as nat);
    lemma_pow10_add((t - q) as nat, q);
    assert(sig * (pow10((t - q) as nat) * pow10(q)) == (sig * pow10((t - q) as nat)) * pow10(q))
        by (nonlinear_arith);
    assert(sig * pow10((t - q) as nat) >= 0) by (nonlinear_arith)
        requires
            sig >= 0 && pow10((t - q) as nat) >= 1,
    ;
    lemma_div_by_multiple(sig * pow10((t - q) as nat), pow10(q));
}

fn digit_of(ch: char) -> (v: u64)
    requires
        is_digit(ch),
    ensures
        v == digit_val(ch),
        v <= 9,
{
    ((ch as u32) - 48) as u64
}

fn cdigit_at(s: &str, len: usize, a: usize, b: usize, c: usize, d: usize, k: usize) -> (ch: char)
    requires
        len == s@.len(),
        a <= b <= c <= d <= len,
        k < (b - a) + (d - c),
    ensures
        ch == cdigit(s@, a as int, b as int, c as int, k as int),
{
    if k < b - a {
        s.get_char(a + k)
    } else {
        s.get_char(c + (k - (b - a)))
    }
}

/// All combined digit positions of a literal's two digit runs hold digits.
proof fn lemma_combined_digits(s: Seq<char>, a: int, b: int, c: int, d: int)
    requires
        a <= b <= c <= d <= s.len(),
        forall|k: int| a <= k < b ==> is_digit(#[trigger] s[k]),
        forall|k: int| c <= k < d ==> is_digit(#[trigger] s[k]),
    ensures
        forall|k: int|
            0 <= k < (b - a) + (d - c) ==> is_digit(#[trigger] cdigit(s, a, b, c, k)),
{
    assert forall|k: int| 0 <= k < (b - a) + (d - c) implies is_digit(
        #[trigger] cdigit(s, a, b, c, k),
    ) by {
        if k < b - a {
            assert(is_digit(s[a + k]));
        } else {
            assert(is_digit(s[c + (k - (b - a))]));
        }
    }
}

/// Exact value of the digit run `s[e0..e1)`, capped at EXP_CAP.
fn exp_value(s: &str, len: usize, e0: usize, e1: usize) -> (ev: i128)
    requires
        len == s@.len(),
        e0 <= e1 <= len,
        forall|k: int| e0 <= k < e1 ==> is_digit(#[trigger] s@[k]),
    ensures
        0 <= ev <= EXP_CAP,
        ev == if digits_val(s@, e0 as int, e1 as int) <= EXP_CAP {
            digits_val(s@, e0 as int, e1 as int)
        } else {
            EXP_CAP as int
        },
{
    proof {
        lemma_combined_digits(s@, e0 as int, e1 as int, e1 as int, e1 as int);
    }
    let mut ev: i128 = 0;
    let mut k: usize = e0;
    while k < e1
        invariant
            e0 <= k <= e1,
            e1 <= len,
            len == s@.len(),
            forall|q: int| e0 <= q < e1 ==> is_digit(#[trigger] s@[q]),
            forall|q: int|
                0 <= q < e1 - e0 ==> is_digit(
                    #[trigger] cdigit(s@, e0 as int, e1 as int, e1 as int, q),
                ),
            0 <= ev <= EXP_CAP,
            ev == ({
                let dv = cdv(s@, e0 as int, e1 as int, e1 as int, 0, k - e0);
                if dv <= EXP_CAP {
                    dv
                } else {
                    EXP_CAP as int
                }
            }),
        decreases e1 - k,
    {
        let ghost old_dv = cdv(s@, e0 as int, e1 as int, e1 as int, 0, k - e0);
        proof {
            lemma_cdv_bounds(s@, e0 as int, e1 as int, e1 as int, 0, k - e0);
            assert(cdigit(s@, e0 as int, e1 as int, e1 as int, k - e0) == s@[k as int]);
            assert(cdv(s@, e0 as int, e1 as int, e1 as int, 0, k + 1 - e0) == old_dv * 10
                + digit_val(s@[k as int]));
        }
        let dg = digit_of(s.get_char(k)) as i128;
        ev = ev * 10 + dg;
        if ev > EXP_CAP {
            ev = EXP_CAP;
        }
        k = k + 1;
    }
    ev
}

/// Index of the first non-zero digit of the combined digit string, or its
/// length if every digit is zero.
fn find_first_sig(s: &str, len: usize, a: usize, b: usize, c: usize, d: usize) -> (fs: usize)
    requires
        len == s@.len(),
        a <= b <= c <= d <= len,
        forall|k: int| a <= k < b ==> is_digit(#[trigger] s@[k]),
        forall|k: int| c <= k < d ==> is_digit(#[trigger] s@[k]),
    ensures
        fs <= (b - a) + (d - c),
        forall|q: int|
            0 <= q < fs ==> digit_val(
                #[trigger] cdigit(s@, a as int, b as int, c as int, q),
            ) == 0,
        fs < (b - a) + (d - c) ==> digit_val(cdigit(s@, a as int, b as int, c as int, fs as int))
            != 0,
{
    proof {
        lemma_combined_digits(s@, a as int, b as int, c as int, d as int);
    }
    let n: usize = (b - a) + (d - c);
    let mut fs: usize = 0;
    loop
        invariant
            fs <= n,
            n == (b - a) + (d - c),
            len == s@.len(),
            a <= b <= c <= d <= len,
            forall|q: int|
                0 <= q < n ==> is_digit(#[trigger] cdigit(s@, a as int, b as int, c as int, q)),
            forall|q: int|
                0 <= q < fs ==> digit_val(
                    #[trigger] cdigit(s@, a as int, b as int, c as int, q),
                ) == 0,
        decreases n - fs,
    {
        if fs == n {
            return fs;
        }
        let ch = cdigit_at(s, len, a, b, c, d, fs);
        if digit_of(ch) != 0 {
            return fs;
        }
        fs = fs + 1;
    }
}

/// Index of the last non-zero digit of the combined digit string, given that
/// a non-zero digit exists at or after `fs`.
fn find_last_sig(s: &str, len: usize, a: usize, b: usize, c: usize, d: usize, fs: usize) -> (ls:
    usize)
    requires
        len == s@.len(),
        a <= b <= c <= d <= len,
        forall|k: int| a <= k < b ==> is_digit(#[trigger] s@[k]),
        forall|k: int| c <= k < d ==> is_digit(#[trigger] s@[k]),
        fs < (b - a) + (d - c),
        digit_val(cdigit(s@, a as int, b as int, c as int, fs as int)) != 0,
    ensures
        fs <= ls < (b - a) + (d - c),
        digit_val(cdigit(s@, a as int, b as int, c as int, ls as int)) != 0,
        forall|q: int|
            ls < q < (b - a) + (d - c) ==> digit_val(
                #[trigger] cdigit(s@, a as int, b as int, c as int, q),
            ) == 0,
{
    proof {
        lemma_combined_digits(s@, a as int, b as int, c as int, d as int);
    }
    let n: usize = (b - a) + (d - c);
    let mut ls: usize = n - 1;
    loop
        invariant
            fs <= ls < n,
            n == (b - a) + (d - c),
            len == s@.len(),
            a <= b <= c <= d <= len,
            digit_val(cdigit(s@, a as int, b as int, c as int, fs as int)) != 0,
            forall|q: int|
                0 <= q < n ==> is_digit(#[trigger] cdigit(s@, a as int, b as int, c as int, q)),
            forall|q: int|
                ls < q < n ==> digit_val(
                    #[trigger] cdigit(s@, a as int, b as int, c as int, q),
                ) == 0,
        decreases ls,
    {
        let ch = cdigit_at(s, len, a, b, c, d, ls);
        if digit_of(ch) != 0 {
            return ls;
        }
        ls = ls - 1;
    }
}

/// The value of the significant digits `[fs, ls]`, which fits in 64 bits when
/// there are at most sixteen of them.
fn sig_value(s: &str, len: usize, a: usize, b: usize, c: usize, d: usize, fs: usize, ls: usize)
    -> (acc: u64)
    requires
        len == s@.len(),
        a <= b <= c <= d <= len,
        forall|k: int| a <= k < b ==> is_digit(#[trigger] s@[k]),
        forall|k: int| c <= k < d ==> is_digit(#[trigger] s@[k]),
        fs <= ls < (b - a) + (d - c),
        ls + 1 - fs <= 16,
    ensures
        acc == cdv(s@, a as int, b as int, c as int, fs as int, ls + 1),
        acc < pow10((ls + 1 - fs) as nat),
{
    proof {
        lemma_combined_digits(s@, a as int, b as int, c as int, d as int);
    }
    let mut acc: u64 = 0;
    let mut k: usize = fs;
    while k < ls + 1
        invariant
            fs <= k <= ls + 1,
            ls < (b - a) + (d - c),
            ls + 1 - fs <= 16,
            len == s@.len(),
            a <= b <= c <= d <= len,
            forall|q: int|
                0 <= q < (b - a) + (d - c) ==> is_digit(
                    #[trigger] cdigit(s@, a as int, b as int, c as int, q),
                ),
            acc == cdv(s@, a as int, b as int, c as int, fs as int, k as int),
            acc < pow10((k - fs) as nat),
        decreases ls + 1 - k,
    {
        proof {
            lemma_pow10_mono((k - fs) as nat, 15);
            assert(pow10(15) == 1000000000000000) by {
                reveal_with_fuel(pow10, 16);
            }
            lemma_cdv_bounds(s@, a as int, b as int, c as int, fs as int, k as int);
        }
        let ch = cdigit_at(s, len, a, b, c, d, k);
        let dg = digit_of(ch);
        acc = acc * 10 + dg;
        k = k + 1;
    }
    acc
}

/// Multiplies `acc` by `10^e`; the bound on `acc` keeps the product in range.
fn shift_pow10(acc: u64, e: usize) -> (v: u64)
    requires
        e <= 16,
        acc < pow10((16 - e) as nat),
    ensures
        v == acc * pow10(e as nat),
{
    let mut v: u64 = acc;
    let mut j: usize = 0;
    while j < e
        invariant
            0 <= j <= e,
            e <= 16,
            acc < pow10((16 - e) as nat),
            v == acc * pow10(j as nat),
            v < pow10((16 - e + j) as nat),
        decreases e - j,
    {
        proof {
            lemma_pow10_mono((16 - e + j) as nat, 15);
            assert(pow10(15) == 1000000000000000) by {
                reveal_with_fuel(pow10, 16);
            }
            assert((acc * pow10(j as nat)) * 10 == acc * (10 * pow10(j as nat)))
                by (nonlinear_arith);
        }
        v = v * 10;
        j = j + 1;
    }
    proof {
        assert(acc * 1 == acc);
    }
    v
}

/// Decides whether the literal with integer digits `s[a..b)`, fraction digits
/// `s[c..d)` and exponent digits `s[e0..e1)` (negated when `eneg`) denotes an
/// integer, and whether that integer stays within the safe-integer bound.
#[verifier::rlimit(100)]
pub fn classify(
    s: &str,
    len: usize,
    a: usize,
    b: usize,
    c: usize,
    d: usize,
    eneg: bool,
    e0: usize,
    e1: usize,
) -> (r: JsonNum)
    requires
        len == s@.len(),
        a <= b <= c <= d <= len,
        e0 <= e1 <= len,
        forall|k: int| a <= k < b ==> is_digit(#[trigger] s@[k]),
        forall|k: int| c <= k < d ==> is_digit(#[trigger] s@[k]),
        forall|k: int| e0 <= k < e1 ==> is_digit(#[trigger] s@[k]),
    ensures
        ({
            let m = cdv(s@, a as int, b as int, c as int, 0, (b - a) + (d - c));
            let e = (if eneg {
                -digits_val(s@, e0 as int, e1 as int)
            } else {
                digits_val(s@, e0 as int, e1 as int)
            }) - (d - c);
            r.integral == spec_integral(m, e) && r.in_bound == spec_in_bound(m, e)
        }),
{
    let n: usize = (b - a) + (d - c);
    proof {
        lemma_combined_digits(s@, a as int, b as int, c as int, d as int);
    }
    let ghost m = cdv(s@, a as int, b as int, c as int, 0, n as int);
    let ghost dv_e = digits_val(s@, e0 as int, e1 as int);
    let ghost e_real = (if eneg {
        -dv_e
    } else {
        dv_e
    }) - (d - c);

    let ev: i128 = exp_value(s, len, e0, e1);
    proof {
        lemma_cdv_bounds(s@, e0 as int, e1 as int, e1 as int, 0, e1 - e0);
    }

    let fs: usize = find_first_sig(s, len, a, b, c, d);
    if fs == n {
        // Every digit is zero: the value is zero, an in-bound integer.
        proof {
            lemma_cdv_zeros(s@, a as int, b as int, c as int, 0, n as int);
            if e_real < 0 {
                lemma_pow10_pos((-e_real) as nat);
                lemma_small_mod(0, pow10((-e_real) as nat) as nat);
                lemma_div_of0(pow10((-e_real) as nat));
            } else {
                assert(0 * pow10(e_real as nat) == 0) by (nonlinear_arith);
            }
        }
        return JsonNum { integral: true, in_bound: true };
    }

    let ls: usize = find_last_sig(s, len, a, b, c, d, fs);
    let t: usize = n - 1 - ls;
    let sd: usize = ls + 1 - fs;
    let ghost sig = cdv(s@, a as int, b as int, c as int, fs as int, ls + 1);

    proof {
        lemma_cdv_skip_leading(s@, a as int, b as int, c as int, 0, fs as int, n as int);
        lemma_cdv_trailing_zeros(s@, a as int, b as int, c as int, fs as int, ls + 1, n as int);
        assert(m == sig * pow10(t as nat));
        lemma_cdv_bounds(s@, a as int, b as int, c as int, fs as int, ls + 1);
        lemma_cdv_first_nonzero(s@, a as int, b as int, c as int, fs as int, ls + 1);
        lemma_cdv_mod10(s@, a as int, b as int, c as int, fs as int, ls + 1);
        assert(sig % 10 != 0);
        lemma_pow10_pos(t as nat);
    }

    let e_shifted: i128 = (if eneg {
        -ev
    } else {
        ev
    }) - ((d - c) as i128) + (t as i128);

    if e_shifted < 0 {
        // The scale ends below the last significant digit: a real fraction.
        proof {
            if dv_e > EXP_CAP {
                // The exponent was capped; it can only be capped downward in
                // effect when it is negated, and then it is deeply negative.
                assert(t < EXP_CAP && (d - c) < EXP_CAP);
                assert(eneg);
            }
            assert(e_real + t < 0);
            let q = -e_real;
            assert(q > t);
            lemma_nondiv_pow10(sig, (q - t) as nat);
            lemma_mod_shift(sig, t as nat, (q - t) as nat);
            lemma_pow10_pos((q - t) as nat);
            lemma_mod_division_less_than_divisor(sig, pow10((q - t) as nat));
            assert(pow10(t as nat) * (sig % pow10((q - t) as nat)) > 0) by (nonlinear_arith)
                requires
                    pow10(t as nat) >= 1 && sig % pow10((q - t) as nat) >= 1,
            ;
            assert(!spec_integral(m, e_real));
        }
        return JsonNum { integral: false, in_bound: false };
    }

    // The scale ends at or above the last significant digit: an integer,
    // namely sig * 10^(e_real + t).
    proof {
        if dv_e > EXP_CAP {
            assert(t < EXP_CAP && (d - c) < EXP_CAP);
            assert(!eneg);
            assert(e_real >= EXP_CAP - (d - c));
        } else {
            if e_real < 0 {
                let q = (-e_real) as nat;
                assert(q <= t);
                lemma_pow10_pos(q);
                lemma_pow10_pos((t - q) as nat);
                lemma_pow10_add((t - q) as nat, q);
                assert(sig * (pow10((t - q) as nat) * pow10(q)) == (sig * pow10((t - q) as nat))
                    * pow10(q)) by (nonlinear_arith);
                assert(sig * pow10((t - q) as nat) >= 0) by (nonlinear_arith)
                    requires
                        sig >= 0 && pow10((t - q) as nat) >= 1,
                ;
                lemma_mod_multiples_basic(sig * pow10((t - q) as nat), pow10(q));
                assert(m % pow10(q) == 0);
            }
        }
        assert(spec_integral(m, e_real));
    }

    let sd_plus_e: i128 = (sd as i128) + e_shifted;
    if sd_plus_e > 16 {
        // At least seventeen significant decimal positions: beyond the bound.
        proof {
            lemma_pow10_pos((sd - 1) as nat);
            assert(pow10(16) == 10000000000000000) by {
                reveal_with_fuel(pow10, 17);
            }
            let ecap = e_real + t;
            if dv_e > EXP_CAP {
                assert(!eneg);
                assert(ecap >= EXP_CAP - (d - c) + t);
            } else {
                assert(ecap == e_shifted);
            }
            assert(ecap >= 0 && sd + ecap > 16);
            // The magnitude is sig * pow10(ecap).
            if e_real >= 0 {
                lemma_pow10_add(t as nat, e_real as nat);
                assert((sig * pow10(t as nat)) * pow10(e_real as nat) == sig * (pow10(t as nat)
                    * pow10(e_real as nat))) by (nonlinear_arith);
                assert(spec_magnitude(m, e_real) == sig * pow10(ecap as nat));
            } else {
                lemma_div_shift(sig, t as nat, (-e_real) as nat);
                assert(spec_magnitude(m, e_real) == sig * pow10(ecap as nat));
            }
            lemma_pow10_mono(16, (sd - 1 + ecap) as nat);
            lemma_pow10_add((sd - 1) as nat, ecap as nat);
            lemma_pow10_pos(ecap as nat);
            lemma_mul_inequality(pow10((sd - 1) as nat), sig, pow10(ecap as nat));
            assert(sig * pow10(ecap as nat) >= pow10((sd - 1) as nat) * pow10(ecap as nat));
            assert(!(spec_magnitude(m, e_real) <= MAX_SAFE_INTEGER));
        }
        return JsonNum { integral: true, in_bound: false };
    }

    // The exponent is exact and small; compute sig * 10^e in 64 bits.
    proof {
        // A capped exponent cannot reach this branch: positive and capped, it
        // would have overshot the significance test just above.
        if dv_e > EXP_CAP {
            assert(t < EXP_CAP && (d - c) < EXP_CAP);
            assert(!eneg);
            assert(e_shifted >= EXP_CAP - ((d - c) as i128));
            assert(false);
        }
        assert(e_real + t == e_shifted);
    }
    let e_small: usize = e_shifted as usize;
    let acc: u64 = sig_value(s, len, a, b, c, d, fs, ls);
    proof {
        lemma_pow10_mono(sd as nat, (16 - e_small) as nat);
    }
    let v: u64 = shift_pow10(acc, e_small);
    let in_bound = v <= MAX_SAFE_INTEGER;
    proof {
        let ecap = e_real + t;
        if e_real >= 0 {
            lemma_pow10_add(t as nat, e_real as nat);
            assert((sig * pow10(t as nat)) * pow10(e_real as nat) == sig * (pow10(t as nat)
                * pow10(e_real as nat))) by (nonlinear_arith);
            assert(spec_magnitude(m, e_real) == sig * pow10(ecap as nat));
        } else {
            lemma_div_shift(sig, t as nat, (-e_real) as nat);
            assert(spec_magnitude(m, e_real) == sig * pow10(ecap as nat));
        }
        assert(v == sig * pow10(ecap as nat));
    }
    JsonNum { integral: true, in_bound }
}

/// The two classification facts schema inference reads of a number: whether
/// the literal's value is an integer, and whether it is an integer within the
/// safe-integer bound.
#[derive(Debug, PartialEq, Eq, Structural, Clone, Copy)]
pub struct JsonNum {
    pub integral: bool,
    pub in_bound: bool,
}

} // verus!
