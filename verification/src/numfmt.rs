//! Finite decimal values and the formatting that removes
//! floating-point artifacts.
//!
//! A `Decimal` holds sign, integer digits and fraction digits of a
//! finite decimal numeral.  Correction snaps a value that lies within
//! `1e-10` of a common decimal fraction to that fraction and otherwise
//! rounds to twelve decimal places; display snaps near-integers to the
//! integer and strips trailing zeros.

use vstd::prelude::*;
use crate::chars::{is_digit_char, d_val, digits_ok};
use crate::chars::{char_is_digit, chars_to_string, copy_range, append_range};
use crate::digits::{
    pow10, digits_val, nat_to_digits, pad_digits, canonical_digits,
    strip_trailing_spec,
    lemma_pow10_pos, lemma_pow10_add, lemma_digits_val_bounds, lemma_digits_val_concat,
    lemma_digits_val_zero, lemma_canonical_unique, lemma_pad_unique, lemma_strip_leading_props,
    Cmp, bound9, cmp_frac_bound, make_head3, inc_digits, strip_leading_zeros,
    strip_trailing_zeros,
};
use crate::chars::find_char;
use crate::chars::lemma_find_char_props;

verus! {

/// A finite decimal numeral: sign, integer digits, fraction digits.
pub struct Decimal {
    pub neg: bool,
    pub int_part: Vec<char>,
    pub frac_part: Vec<char>,
}

/// Mathematical model of a `Decimal`.
pub struct DecimalView {
    pub neg: bool,
    pub int_digits: Seq<char>,
    pub frac_digits: Seq<char>,
}

impl View for Decimal {
    type V = DecimalView;

    open spec fn view(&self) -> DecimalView {
        DecimalView {
            neg: self.neg,
            int_digits: self.int_part@,
            frac_digits: self.frac_part@,
        }
    }
}

/// Well-formedness: both parts are digit strings and there is at least
/// one integer digit.
pub open spec fn dec_wf(dv: DecimalView) -> bool {
    digits_ok(dv.int_digits) && dv.int_digits.len() >= 1 && digits_ok(dv.frac_digits)
}

/// Magnitude of the value as an integer, scaled by ten to the number of
/// fraction digits.
pub open spec fn dec_scaled(dv: DecimalView) -> int {
    digits_val(dv.int_digits) * pow10(dv.frac_digits.len()) + digits_val(dv.frac_digits)
}

/// A decimal numeral: an optional minus sign, at least one integer
/// digit, and, after a dot, at least one fraction digit.
pub open spec fn decimal_dot_at(t: Seq<char>, p: int) -> bool {
    1 <= p <= t.len() - 2 && t[p] == '.'
        && (forall|i: int| 0 <= i < p ==> is_digit_char(#[trigger] t[i]))
        && (forall|i: int| p < i < t.len() ==> is_digit_char(#[trigger] t[i]))
}

pub open spec fn is_unsigned_decimal(t: Seq<char>) -> bool {
    t.len() > 0 && (digits_ok(t) || (exists|p: int| decimal_dot_at(t, p)))
}

pub open spec fn is_decimal_lit(s: Seq<char>) -> bool {
    if s.len() > 0 && s[0] == '-' {
        is_unsigned_decimal(s.skip(1))
    } else {
        is_unsigned_decimal(s)
    }
}

/// The decomposition of an unsigned decimal numeral into its parts.
pub open spec fn parse_unsigned(t: Seq<char>, neg: bool) -> DecimalView {
    let p = find_char(t, '.');
    if p < 0 {
        DecimalView { neg, int_digits: t, frac_digits: Seq::empty() }
    } else {
        DecimalView { neg, int_digits: t.take(p), frac_digits: t.skip(p + 1) }
    }
}

/// The decomposition of a decimal numeral into its parts.
pub open spec fn parse_spec(s: Seq<char>) -> DecimalView {
    if s.len() > 0 && s[0] == '-' {
        parse_unsigned(s.skip(1), true)
    } else {
        parse_unsigned(s, false)
    }
}

/// First index at or after `from` holding a non-digit, or the length.
fn scan_digits(v: &Vec<char>, from: usize) -> (r: usize)
    requires
        from <= v@.len(),
    ensures
        from <= r <= v@.len(),
        forall|i: int| from <= i < r ==> is_digit_char(#[trigger] v@[i]),
        r < v@.len() ==> !is_digit_char(v@[r as int]),
{
    let mut i = from;
    while i < v.len()
        invariant
            from <= i <= v@.len(),
            forall|k: int| from <= k < i ==> is_digit_char(#[trigger] v@[k]),
        decreases v@.len() - i,
    {
        if !char_is_digit(v[i]) {
            return i;
        }
        i = i + 1;
    }
    i
}

/// Parse a decimal numeral.  Returns `None` exactly when the characters
/// are not of the shape `-? digits (. digits)?`.
pub fn parse_decimal(v: &Vec<char>) -> (r: Option<Decimal>)
    ensures
        r is Some <==> is_decimal_lit(v@),
        r matches Some(d) ==> d@ == parse_spec(v@) && dec_wf(d@),
{
    let n = v.len();
    let neg = n > 0 && v[0] == '-';
    let start: usize = if neg { 1 } else { 0 };
    let ghost t = if neg { v@.skip(1) } else { v@ };
    proof {
        assert(t =~= v@.subrange(start as int, n as int));
        assert(forall|i: int| 0 <= i < t.len() ==> t[i] == v@[i + start]);
    }
    if n == start {
        return None;
    }
    let q = scan_digits(v, start);
    if q == start {
        // the first character after the sign is not a digit
        proof {
            assert(!is_digit_char(t[0]));
            assert(!digits_ok(t));
            assert forall|p: int| !decimal_dot_at(t, p) by {
                if decimal_dot_at(t, p) {
                    assert(is_digit_char(t[0]));
                    assert(false);
                }
            }
        }
        return None;
    }
    if q == n {
        // digits all the way to the end
        let int_part = copy_range(v, start, n);
        proof {
            assert(int_part@ =~= t);
            assert(digits_ok(t));
            lemma_find_char_props(t, '.');
            if find_char(t, '.') >= 0 {
                assert(is_digit_char(t[find_char(t, '.')]));
                assert(false);
            }
        }
        return Some(Decimal { neg, int_part, frac_part: Vec::new() });
    }
    let ghost p = q - start;
    proof {
        assert(t[p] == v@[q as int]);
        assert(forall|i: int| 0 <= i < p ==> is_digit_char(#[trigger] t[i]));
    }
    if v[q] != '.' {
        // a character that is neither digit nor dot
        proof {
            assert(!is_digit_char(t[p]));
            assert(!digits_ok(t));
            assert forall|pp: int| !decimal_dot_at(t, pp) by {
                if decimal_dot_at(t, pp) {
                    if pp < p {
                        assert(is_digit_char(t[pp]));
                    } else if pp > p {
                        assert(is_digit_char(t[p]));
                    }
                    assert(false);
                }
            }
        }
        return None;
    }
    if q + 1 == n {
        // dot at the very end: no fraction digits
        proof {
            assert(!digits_ok(t)) by {
                assert(!is_digit_char(t[p]));
            }
            assert forall|pp: int| !decimal_dot_at(t, pp) by {
                if decimal_dot_at(t, pp) {
                    if pp < p {
                        assert(is_digit_char(t[pp]));
                    } else if pp > p {
                        assert(is_digit_char(t[p]));
                    } else {
                        assert(pp == t.len() - 1);
                    }
                    assert(false);
                }
            }
        }
        return None;
    }
    let e = scan_digits(v, q + 1);
    if e < n {
        // a non-digit inside the fraction part
        proof {
            let bad = e - start;
            assert(t[bad] == v@[e as int]);
            assert(!is_digit_char(t[bad]));
            assert(!digits_ok(t)) by {
                assert(!is_digit_char(t[p]));
            }
            assert forall|pp: int| !decimal_dot_at(t, pp) by {
                if decimal_dot_at(t, pp) {
                    if pp < p {
                        assert(is_digit_char(t[pp]));
                    } else if pp > p {
                        assert(is_digit_char(t[p]));
                    } else {
                        assert(pp < bad < t.len());
                        assert(is_digit_char(t[bad]));
                    }
                    assert(false);
                }
            }
        }
        return None;
    }
    let int_part = copy_range(v, start, q);
    let frac_part = copy_range(v, q + 1, n);
    proof {
        assert(decimal_dot_at(t, p)) by {
            assert(t[p] == '.');
            assert(forall|i: int| p < i < t.len() ==> t[i] == v@[i + start]);
        }
        assert(is_decimal_lit(v@)) by {
            if neg {
                assert(decimal_dot_at(v@.skip(1), p));
                assert(is_unsigned_decimal(v@.skip(1)));
            } else {
                assert(decimal_dot_at(v@, p));
                assert(is_unsigned_decimal(v@));
            }
        }
        lemma_find_char_props(t, '.');
        assert(find_char(t, '.') >= 0) by {
            if find_char(t, '.') < 0 {
                assert(crate::chars::contains_char(t, '.')) by {
                    assert(t[p] == '.');
                }
                assert(false);
            }
        }
        let fp = find_char(t, '.');
        assert(t[fp] == '.');
        assert(fp >= p) by {
            if fp < p {
                assert(is_digit_char(t[fp]));
            }
        }
        assert(fp <= p) by {
            if fp > p {
                assert(t[p] != '.');
            }
        }
        assert(int_part@ =~= t.take(p));
        assert(frac_part@ =~= t.skip(p + 1));
    }
    Some(Decimal { neg, int_part, frac_part })
}

} // verus!

verus! {

/// Sign prefix for rendering.
pub open spec fn sign_seq(neg: bool) -> Seq<char> {
    if neg {
        seq!['-']
    } else {
        Seq::empty()
    }
}

/// The magnitude rounded to twelve fraction digits, half away from
/// zero, as an integer scaled by `10^12`.
pub open spec fn round12_scaled(dv: DecimalView) -> int {
    let l = dv.frac_digits.len();
    if l <= 12 {
        dec_scaled(dv) * pow10((12 - l) as nat)
    } else {
        let t = pow10((l - 12) as nat);
        (2 * dec_scaled(dv) + t) / (2 * t)
    }
}

/// The value rounded to exactly twelve fraction digits, the integer
/// digits canonical.
pub open spec fn round12_spec(dv: DecimalView) -> DecimalView {
    DecimalView {
        neg: dv.neg,
        int_digits: nat_to_digits(round12_scaled(dv) / pow10(12)),
        frac_digits: pad_digits(round12_scaled(dv) % pow10(12), 12),
    }
}

/// The fraction part is within `1e-10` of zero.
pub open spec fn near_int_low(dv: DecimalView) -> bool {
    digits_val(dv.frac_digits) * pow10(10) < pow10(dv.frac_digits.len())
}

/// The fraction part is within `1e-10` of one.
pub open spec fn near_int_high(dv: DecimalView) -> bool {
    (pow10(dv.frac_digits.len()) - digits_val(dv.frac_digits)) * pow10(10)
        < pow10(dv.frac_digits.len())
}

/// The value lies strictly within `1e-10` of the fraction `n / dn`,
/// stated over the integers after clearing all denominators.
pub open spec fn within_tol(dv: DecimalView, n: int, dn: int) -> bool {
    let m = if dv.neg {
        -dec_scaled(dv)
    } else {
        dec_scaled(dv)
    };
    (n * pow10(10) - dn) * pow10(dv.frac_digits.len()) < m * dn * pow10(10)
        && m * dn * pow10(10) < (n * pow10(10) + dn) * pow10(dv.frac_digits.len())
}

/// Twelve fraction digits in the pattern one leading digit, ten middle
/// copies, one final digit.
pub open spec fn digits12(a: char, mid: char, last: char) -> Seq<char> {
    Seq::new(12, |i: int| if i == 0 { a } else if i < 11 { mid } else { last })
}

/// The snapped value: `0.` followed by the twelve given fraction
/// digits.
pub open spec fn snap_view(a: char, mid: char, last: char) -> DecimalView {
    DecimalView { neg: false, int_digits: seq!['0'], frac_digits: digits12(a, mid, last) }
}

/// Precision correction: snap to the nearest entry of the table of
/// common decimal fractions (tenths and thirds, each rendered at twelve
/// places) when within `1e-10`, otherwise round to twelve places.
pub open spec fn round_spec(dv: DecimalView) -> DecimalView {
    if within_tol(dv, 3, 10) {
        snap_view('3', '0', '0')
    } else if within_tol(dv, 7, 10) {
        snap_view('7', '0', '0')
    } else if within_tol(dv, 9, 10) {
        snap_view('9', '0', '0')
    } else if within_tol(dv, 1, 10) {
        snap_view('1', '0', '0')
    } else if within_tol(dv, 2, 10) {
        snap_view('2', '0', '0')
    } else if within_tol(dv, 4, 10) {
        snap_view('4', '0', '0')
    } else if within_tol(dv, 5, 10) {
        snap_view('5', '0', '0')
    } else if within_tol(dv, 6, 10) {
        snap_view('6', '0', '0')
    } else if within_tol(dv, 8, 10) {
        snap_view('8', '0', '0')
    } else if within_tol(dv, 1, 3) {
        snap_view('3', '3', '3')
    } else if within_tol(dv, 2, 3) {
        snap_view('6', '6', '7')
    } else {
        round12_spec(dv)
    }
}

/// The display string of a finite float value: a near-integer shows as
/// the integer alone; anything else shows at twelve places with
/// trailing zeros stripped, a lone trailing dot completed by one zero.
pub open spec fn float_display_spec(dv: DecimalView) -> Seq<char> {
    if near_int_low(dv) {
        sign_seq(dv.neg) + nat_to_digits(digits_val(dv.int_digits))
    } else if near_int_high(dv) {
        sign_seq(dv.neg) + nat_to_digits(digits_val(dv.int_digits) + 1)
    } else {
        let w = round12_spec(dv);
        let sf = strip_trailing_spec(w.frac_digits);
        sign_seq(dv.neg) + w.int_digits + seq!['.']
            + (if sf.len() == 0 { seq!['0'] } else { sf })
    }
}

pub proof fn lemma_pow10_vals()
    ensures
        pow10(10) == 10000000000,
        pow10(12) == 1000000000000,
{
    assert(pow10(0) == 1);
    assert(pow10(1) == 10);
    assert(pow10(2) == 100);
    assert(pow10(3) == 1000);
    assert(pow10(4) == 10000);
    assert(pow10(5) == 100000);
    assert(pow10(6) == 1000000);
    assert(pow10(7) == 10000000);
    assert(pow10(8) == 100000000);
    assert(pow10(9) == 1000000000);
    assert(pow10(10) == 10000000000);
    assert(pow10(11) == 100000000000);
    assert(pow10(12) == 1000000000000);
}

/// Append `k` zero digits to `dst`.
fn append_zeros(dst: &mut Vec<char>, k: usize)
    ensures
        final(dst)@.len() == old(dst)@.len() + k,
        final(dst)@.subrange(0, old(dst)@.len() as int) == old(dst)@,
        forall|i: int| old(dst)@.len() <= i < final(dst)@.len() ==> final(dst)@[i] == '0',
{
    let mut i: usize = 0;
    while i < k
        invariant
            0 <= i <= k,
            dst@.len() == old(dst)@.len() + i,
            dst@.subrange(0, old(dst)@.len() as int) =~= old(dst)@,
            forall|j: int| old(dst)@.len() <= j < dst@.len() ==> dst@[j] == '0',
        decreases k - i,
    {
        dst.push('0');
        assert(dst@.subrange(0, old(dst)@.len() as int) =~= old(dst)@);
        i = i + 1;
    }
}

/// Round a well-formed decimal to exactly twelve fraction digits, half
/// away from zero.
pub fn round12(d: &Decimal) -> (r: Decimal)
    requires
        dec_wf(d@),
    ensures
        r@ == round12_spec(d@),
        dec_wf(r@),
        r@.frac_digits.len() == 12,
        canonical_digits(r@.int_digits),
{
    let l = d.frac_part.len();
    let il = d.int_part.len();
    let ghost m = dec_scaled(d@);
    let ghost s12 = round12_scaled(d@);
    proof {
        lemma_digits_val_bounds(d@.int_digits);
        lemma_digits_val_bounds(d@.frac_digits);
        lemma_pow10_pos(d@.frac_digits.len());
    }
    let mut comb: Vec<char> = Vec::new();
    append_range(&mut comb, &d.int_part, 0, il);
    if l <= 12 {
        append_range(&mut comb, &d.frac_part, 0, l);
        append_zeros(&mut comb, 12 - l);
        proof {
            assert(d.int_part@.subrange(0, il as int) =~= d@.int_digits);
            assert(d.frac_part@.subrange(0, l as int) =~= d@.frac_digits);
            let zeros = comb@.skip((il + l) as int);
            assert(comb@ =~= (d@.int_digits + d@.frac_digits) + zeros);
            lemma_digits_val_concat(d@.int_digits + d@.frac_digits, zeros);
            lemma_digits_val_concat(d@.int_digits, d@.frac_digits);
            assert(digits_ok(zeros));
            lemma_digits_val_zero(zeros);
            assert(digits_val(zeros) == 0);
            lemma_pow10_add(d@.frac_digits.len(), (12 - l) as nat);
            // the combined digits denote the scaled magnitude
            assert(digits_val(comb@) == s12) by (nonlinear_arith)
                requires
                    digits_val(comb@) == (digits_val(d@.int_digits) * pow10(l as nat)
                        + digits_val(d@.frac_digits)) * pow10((12 - l) as nat),
                    m == digits_val(d@.int_digits) * pow10(l as nat)
                        + digits_val(d@.frac_digits),
                    s12 == m * pow10((12 - l) as nat),
                    l == d@.frac_digits.len(),
            ;
            assert(digits_ok(comb@));
        }
    } else {
        append_range(&mut comb, &d.frac_part, 0, 12);
        let ghost f12 = d@.frac_digits.take(12);
        let ghost tail = d@.frac_digits.skip(12);
        let ghost t = pow10((l - 12) as nat);
        let ghost q = digits_val(d@.int_digits) * pow10(12) + digits_val(f12);
        proof {
            assert(d.int_part@.subrange(0, il as int) =~= d@.int_digits);
            assert(d.frac_part@.subrange(0, 12) =~= f12);
            assert(comb@ =~= d@.int_digits + f12);
            lemma_digits_val_concat(d@.int_digits, f12);
            assert(digits_val(comb@) == q);
            assert(digits_ok(comb@));
            assert(digits_ok(f12)) by {
                assert(forall|i: int| 0 <= i < f12.len() ==> f12[i] == d@.frac_digits[i]);
            }
            assert(digits_ok(tail)) by {
                assert(forall|i: int| 0 <= i < tail.len() ==> tail[i] == d@.frac_digits[i + 12]);
            }
            // split the fraction at twelve digits: m == q * t + tail
            assert(d@.frac_digits =~= f12 + tail);
            lemma_digits_val_concat(f12, tail);
            lemma_digits_val_bounds(tail);
            lemma_digits_val_bounds(f12);
            lemma_pow10_add(12, (l - 12) as nat);
            lemma_pow10_pos((l - 12) as nat);
            assert(m == q * t + digits_val(tail)) by (nonlinear_arith)
                requires
                    m == digits_val(d@.int_digits) * (pow10(12) * t)
                        + (digits_val(f12) * t + digits_val(tail)),
                    q == digits_val(d@.int_digits) * pow10(12) + digits_val(f12),
            ;
            vstd::arithmetic::div_mod::lemma_fundamental_div_mod_converse(
                m, t, q, digits_val(tail));
        }
        let d13 = d.frac_part[12];
        let up = (d13 as u32) >= 53;
        proof {
            // the first dropped digit decides the rounding direction
            let rest = tail.skip(1);
            assert(tail =~= tail.take(1) + rest);
            lemma_digits_val_concat(tail.take(1), rest);
            assert(tail.take(1).drop_last() =~= Seq::<char>::empty());
            assert(digits_val(Seq::<char>::empty()) == 0);
            assert(tail.take(1).last() == d13);
            assert(digits_val(tail.take(1)) == d_val(d13));
            assert(digits_ok(rest)) by {
                assert(forall|i: int| 0 <= i < rest.len() ==> rest[i] == tail[i + 1]);
            }
            lemma_digits_val_bounds(rest);
            lemma_pow10_pos(rest.len());
            assert(t == 10 * pow10(rest.len())) by {
                lemma_pow10_add(1, rest.len());
            }
            assert((d_val(d13) >= 5) <==> (2 * digits_val(tail) >= t)) by (nonlinear_arith)
                requires
                    digits_val(tail) == d_val(d13) * pow10(rest.len()) + digits_val(rest),
                    0 <= digits_val(rest) < pow10(rest.len()),
                    t == 10 * pow10(rest.len()),
                    0 <= d_val(d13) <= 9,
            ;
            // the rounded quotient is q, plus one on a high tail
            let s12x = if 2 * digits_val(tail) >= t { q + 1 } else { q };
            let rem = if 2 * digits_val(tail) >= t {
                2 * digits_val(tail) - t
            } else {
                2 * digits_val(tail) + t
            };
            assert(2 * m + t == s12x * (2 * t) + rem) by (nonlinear_arith)
                requires
                    m == q * t + digits_val(tail),
                    s12x == if 2 * digits_val(tail) >= t { q + 1 } else { q },
                    rem == if 2 * digits_val(tail) >= t {
                        2 * digits_val(tail) - t
                    } else {
                        2 * digits_val(tail) + t
                    },
            ;
            assert(0 <= rem < 2 * t);
            vstd::arithmetic::div_mod::lemma_fundamental_div_mod_converse(
                2 * m + t, 2 * t, s12x, rem);
            assert(s12 == s12x);
        }
        if up {
            comb = inc_digits(&comb);
        }
        proof {
            assert(digits_val(comb@) == s12);
            assert(digits_ok(comb@));
            assert(comb@.len() >= 13);
        }
    }
    // split the combined digits back into integer and fraction parts
    let cl = comb.len();
    proof {
        lemma_pow10_vals();
        lemma_digits_val_bounds(comb@);
    }
    let int0 = copy_range(&comb, 0, cl - 12);
    let frac = copy_range(&comb, cl - 12, cl);
    proof {
        assert(comb@ =~= int0@ + frac@);
        lemma_digits_val_concat(int0@, frac@);
        assert(digits_ok(int0@)) by {
            assert(forall|i: int| 0 <= i < int0@.len() ==> int0@[i] == comb@[i]);
        }
        assert(digits_ok(frac@)) by {
            assert(forall|i: int| 0 <= i < frac@.len() ==> frac@[i] == comb@[i + cl - 12]);
        }
        lemma_digits_val_bounds(frac@);
        assert(frac@.len() == 12);
        vstd::arithmetic::div_mod::lemma_fundamental_div_mod_converse(
            s12, pow10(12), digits_val(int0@), digits_val(frac@));
        lemma_pad_unique(frac@);
    }
    let int_c = strip_leading_zeros(&int0);
    proof {
        lemma_strip_leading_props(int0@);
        lemma_canonical_unique(int_c@);
        assert(int_c@ == nat_to_digits(s12 / pow10(12)));
        assert(frac@ == pad_digits(s12 % pow10(12), 12));
    }
    Decimal { neg: d.neg, int_part: int_c, frac_part: frac }
}

} // verus!

verus! {

/// Decide whether a digit string is all zeros.
pub fn is_all_zeros(v: &Vec<char>) -> (b: bool)
    requires
        digits_ok(v@),
    ensures
        b == (digits_val(v@) == 0),
{
    let mut i: usize = 0;
    let mut all: bool = true;
    while i < v.len()
        invariant
            0 <= i <= v@.len(),
            digits_ok(v@),
            all == (forall|j: int| 0 <= j < i ==> v@[j] == '0'),
        decreases v@.len() - i,
    {
        if v[i] != '0' {
            all = false;
        }
        i = i + 1;
    }
    proof {
        lemma_digits_val_zero(v@);
    }
    all
}

/// Whether the fraction lies strictly between the two repeating-decimal
/// bounds.
fn frac_in_band(
    f: &Vec<char>,
    lo: &Vec<char>,
    lo_rep: char,
    hi: &Vec<char>,
    hi_rep: char,
) -> (b: bool)
    requires
        digits_ok(f@),
        digits_ok(lo@),
        digits_ok(hi@),
        lo@.len() == 10,
        hi@.len() == 10,
        is_digit_char(lo_rep),
        is_digit_char(hi_rep),
        d_val(lo_rep) <= 8,
        d_val(hi_rep) <= 8,
    ensures
        b == (bound9(lo@, lo_rep) * pow10(f@.len()) < 9 * pow10(10) * digits_val(f@)
            && 9 * pow10(10) * digits_val(f@) < bound9(hi@, hi_rep) * pow10(f@.len())),
{
    let c1 = cmp_frac_bound(f, lo, lo_rep);
    let c2 = cmp_frac_bound(f, hi, hi_rep);
    let g1 = match c1 {
        Cmp::Gt => true,
        _ => false,
    };
    let g2 = match c2 {
        Cmp::Lt => true,
        _ => false,
    };
    g1 && g2
}

/// Only a positive value below one can lie within the tolerance of a
/// table entry: every entry is at least a tenth away from zero and from
/// one.
proof fn lemma_tol_small(dv: DecimalView, n: int, dn: int)
    requires
        dec_wf(dv),
        1 <= n,
        0 < dn <= 10,
        n * 10 <= 9 * dn,
        within_tol(dv, n, dn),
    ensures
        !dv.neg,
        digits_val(dv.int_digits) == 0,
{
    let pl = pow10(dv.frac_digits.len());
    let p10 = pow10(10);
    let mm = dec_scaled(dv);
    let m = if dv.neg { -mm } else { mm };
    lemma_pow10_vals();
    lemma_pow10_pos(dv.frac_digits.len());
    lemma_digits_val_bounds(dv.int_digits);
    lemma_digits_val_bounds(dv.frac_digits);
    assert(mm >= 0) by (nonlinear_arith)
        requires
            mm == digits_val(dv.int_digits) * pl + digits_val(dv.frac_digits),
            digits_val(dv.int_digits) >= 0,
            digits_val(dv.frac_digits) >= 0,
            pl >= 1,
    ;
    assert(m > 0) by (nonlinear_arith)
        requires
            (n * p10 - dn) * pl < m * dn * p10,
            n >= 1,
            0 < dn <= 10,
            p10 == 10000000000,
            pl >= 1,
    ;
    assert(!dv.neg);
    assert(digits_val(dv.int_digits) == 0) by (nonlinear_arith)
        requires
            m * dn * p10 < (n * p10 + dn) * pl,
            m == digits_val(dv.int_digits) * pl + digits_val(dv.frac_digits),
            digits_val(dv.int_digits) >= 0,
            digits_val(dv.frac_digits) >= 0,
            n * 10 <= 9 * dn,
            1 <= n,
            0 < dn <= 10,
            p10 == 10000000000,
            pl >= 1,
    ;
}

/// For a positive value below one, lying within the tolerance of
/// `n / dn` is exactly lying strictly between the two repeating-decimal
/// bounds, after clearing denominators.
proof fn lemma_tol_band(dv: DecimalView, n: int, dn: int, blo: int, bhi: int)
    requires
        dec_wf(dv),
        !dv.neg,
        digits_val(dv.int_digits) == 0,
        dn > 0,
        blo * dn == 9 * (n * pow10(10) - dn),
        bhi * dn == 9 * (n * pow10(10) + dn),
    ensures
        within_tol(dv, n, dn) <==> (blo * pow10(dv.frac_digits.len())
            < 9 * pow10(10) * digits_val(dv.frac_digits)
            && 9 * pow10(10) * digits_val(dv.frac_digits)
                < bhi * pow10(dv.frac_digits.len())),
{
    let pl = pow10(dv.frac_digits.len());
    let p10 = pow10(10);
    let f = digits_val(dv.frac_digits);
    lemma_pow10_pos(dv.frac_digits.len());
    lemma_pow10_pos(10);
    assert(dec_scaled(dv) == f) by (nonlinear_arith)
        requires
            dec_scaled(dv) == digits_val(dv.int_digits) * pl + f,
            digits_val(dv.int_digits) == 0,
    ;
    assert(((n * p10 - dn) * pl < f * dn * p10) <==> (blo * pl < 9 * p10 * f))
        by (nonlinear_arith)
        requires
            blo * dn == 9 * (n * p10 - dn),
            dn > 0,
            pl >= 1,
    ;
    assert((f * dn * p10 < (n * p10 + dn) * pl) <==> (9 * p10 * f < bhi * pl))
        by (nonlinear_arith)
        requires
            bhi * dn == 9 * (n * p10 + dn),
            dn > 0,
            pl >= 1,
    ;
}

/// Build a snapped result: `0.` and the twelve given fraction digits.
fn make_snap(a: char, mid: char, last: char) -> (r: Decimal)
    requires
        is_digit_char(a),
        is_digit_char(mid),
        is_digit_char(last),
    ensures
        r@ == snap_view(a, mid, last),
        dec_wf(r@),
{
    let mut int_part: Vec<char> = Vec::new();
    int_part.push('0');
    let mut frac_part: Vec<char> = Vec::new();
    frac_part.push(a);
    let mut i: usize = 0;
    while i < 10
        invariant
            0 <= i <= 10,
            frac_part@.len() == i + 1,
            frac_part@[0] == a,
            forall|k: int| 1 <= k <= i ==> frac_part@[k] == mid,
        decreases 10 - i,
    {
        frac_part.push(mid);
        i = i + 1;
    }
    frac_part.push(last);
    proof {
        assert(int_part@ =~= seq!['0']);
        assert(frac_part@ =~= digits12(a, mid, last));
    }
    Decimal { neg: false, int_part, frac_part }
}

} // verus!

verus! {

/// Precision correction of a finite float value: snap to a table entry
/// within `1e-10`, otherwise round to twelve decimal places.
pub fn round_float_result(d: &Decimal) -> (r: Decimal)
    requires
        dec_wf(d@),
    ensures
        r@ == round_spec(d@),
        dec_wf(r@),
{
    proof {
        lemma_pow10_vals();
    }
    if !d.neg && is_all_zeros(&d.int_part) {
        let lo3 = make_head3('2', '9', '9');
        let hi3 = make_head3('3', '0', '1');
        proof {
            lemma_tol_band(d@, 3, 10, bound9(lo3@, '0'), bound9(hi3@, '0'));
        }
        if frac_in_band(&d.frac_part, &lo3, '0', &hi3, '0') {
            return make_snap('3', '0', '0');
        }
        let lo7 = make_head3('6', '9', '9');
        let hi7 = make_head3('7', '0', '1');
        proof {
            lemma_tol_band(d@, 7, 10, bound9(lo7@, '0'), bound9(hi7@, '0'));
        }
        if frac_in_band(&d.frac_part, &lo7, '0', &hi7, '0') {
            return make_snap('7', '0', '0');
        }
        let lo9 = make_head3('8', '9', '9');
        let hi9 = make_head3('9', '0', '1');
        proof {
            lemma_tol_band(d@, 9, 10, bound9(lo9@, '0'), bound9(hi9@, '0'));
        }
        if frac_in_band(&d.frac_part, &lo9, '0', &hi9, '0') {
            return make_snap('9', '0', '0');
        }
        let lo1 = make_head3('0', '9', '9');
        let hi1 = make_head3('1', '0', '1');
        proof {
            lemma_tol_band(d@, 1, 10, bound9(lo1@, '0'), bound9(hi1@, '0'));
        }
        if frac_in_band(&d.frac_part, &lo1, '0', &hi1, '0') {
            return make_snap('1', '0', '0');
        }
        let lo2 = make_head3('1', '9', '9');
        let hi2 = make_head3('2', '0', '1');
        proof {
            lemma_tol_band(d@, 2, 10, bound9(lo2@, '0'), bound9(hi2@, '0'));
        }
        if frac_in_band(&d.frac_part, &lo2, '0', &hi2, '0') {
            return make_snap('2', '0', '0');
        }
        let lo4 = make_head3('3', '9', '9');
        let hi4 = make_head3('4', '0', '1');
        proof {
            lemma_tol_band(d@, 4, 10, bound9(lo4@, '0'), bound9(hi4@, '0'));
        }
        if frac_in_band(&d.frac_part, &lo4, '0', &hi4, '0') {
            return make_snap('4', '0', '0');
        }
        let lo5 = make_head3('4', '9', '9');
        let hi5 = make_head3('5', '0', '1');
        proof {
            lemma_tol_band(d@, 5, 10, bound9(lo5@, '0'), bound9(hi5@, '0'));
        }
        if frac_in_band(&d.frac_part, &lo5, '0', &hi5, '0') {
            return make_snap('5', '0', '0');
        }
        let lo6 = make_head3('5', '9', '9');
        let hi6 = make_head3('6', '0', '1');
        proof {
            lemma_tol_band(d@, 6, 10, bound9(lo6@, '0'), bound9(hi6@, '0'));
        }
        if frac_in_band(&d.frac_part, &lo6, '0', &hi6, '0') {
            return make_snap('6', '0', '0');
        }
        let lo8 = make_head3('7', '9', '9');
        let hi8 = make_head3('8', '0', '1');
        proof {
            lemma_tol_band(d@, 8, 10, bound9(lo8@, '0'), bound9(hi8@, '0'));
        }
        if frac_in_band(&d.frac_part, &lo8, '0', &hi8, '0') {
            return make_snap('8', '0', '0');
        }
        let lot = make_head3('3', '3', '2');
        let hit = make_head3('3', '3', '4');
        proof {
            lemma_tol_band(d@, 1, 3, bound9(lot@, '3'), bound9(hit@, '3'));
        }
        if frac_in_band(&d.frac_part, &lot, '3', &hit, '3') {
            return make_snap('3', '3', '3');
        }
        let lou = make_head3('6', '6', '5');
        let hiu = make_head3('6', '6', '7');
        proof {
            lemma_tol_band(d@, 2, 3, bound9(lou@, '6'), bound9(hiu@, '6'));
        }
        if frac_in_band(&d.frac_part, &lou, '6', &hiu, '6') {
            return make_snap('6', '6', '7');
        }
        round12(d)
    } else {
        proof {
            assert(!within_tol(d@, 3, 10)) by {
                if within_tol(d@, 3, 10) { lemma_tol_small(d@, 3, 10); }
            }
            assert(!within_tol(d@, 7, 10)) by {
                if within_tol(d@, 7, 10) { lemma_tol_small(d@, 7, 10); }
            }
            assert(!within_tol(d@, 9, 10)) by {
                if within_tol(d@, 9, 10) { lemma_tol_small(d@, 9, 10); }
            }
            assert(!within_tol(d@, 1, 10)) by {
                if within_tol(d@, 1, 10) { lemma_tol_small(d@, 1, 10); }
            }
            assert(!within_tol(d@, 2, 10)) by {
                if within_tol(d@, 2, 10) { lemma_tol_small(d@, 2, 10); }
            }
            assert(!within_tol(d@, 4, 10)) by {
                if within_tol(d@, 4, 10) { lemma_tol_small(d@, 4, 10); }
            }
            assert(!within_tol(d@, 5, 10)) by {
                if within_tol(d@, 5, 10) { lemma_tol_small(d@, 5, 10); }
            }
            assert(!within_tol(d@, 6, 10)) by {
                if within_tol(d@, 6, 10) { lemma_tol_small(d@, 6, 10); }
            }
            assert(!within_tol(d@, 8, 10)) by {
                if within_tol(d@, 8, 10) { lemma_tol_small(d@, 8, 10); }
            }
            assert(!within_tol(d@, 1, 3)) by {
                if within_tol(d@, 1, 3) { lemma_tol_small(d@, 1, 3); }
            }
            assert(!within_tol(d@, 2, 3)) by {
                if within_tol(d@, 2, 3) { lemma_tol_small(d@, 2, 3); }
            }
        }
        round12(d)
    }
}

/// Render a finite float value as its display string.
pub fn format_decimal(d: &Decimal) -> (r: String)
    requires
        dec_wf(d@),
    ensures
        r@ == float_display_spec(d@),
{
    proof {
        lemma_pow10_vals();
        lemma_digits_val_bounds(d@.frac_digits);
        lemma_pow10_pos(d@.frac_digits.len());
    }
    let low_head = make_head3('0', '0', '1');
    let c_low = cmp_frac_bound(&d.frac_part, &low_head, '0');
    let near_low = match c_low {
        Cmp::Lt => true,
        _ => false,
    };
    proof {
        let f = digits_val(d@.frac_digits);
        let pl = pow10(d@.frac_digits.len());
        assert((9 * pow10(10) * f < bound9(low_head@, '0') * pl) <==> (f * pow10(10) < pl))
            by (nonlinear_arith)
            requires
                bound9(low_head@, '0') == 9,
                pl >= 1,
        ;
        assert(near_low == near_int_low(d@));
    }
    if near_low {
        let ic = strip_leading_zeros(&d.int_part);
        proof {
            lemma_strip_leading_props(d@.int_digits);
            lemma_canonical_unique(ic@);
        }
        let mut out: Vec<char> = Vec::new();
        if d.neg {
            out.push('-');
        }
        let n = ic.len();
        append_range(&mut out, &ic, 0, n);
        proof {
            assert(ic@.subrange(0, n as int) =~= ic@);
            assert(out@ =~= sign_seq(d@.neg) + nat_to_digits(digits_val(d@.int_digits)));
        }
        return chars_to_string(&out);
    }
    let high_head = make_head3('9', '9', '9');
    let c_high = cmp_frac_bound(&d.frac_part, &high_head, '0');
    let near_high = match c_high {
        Cmp::Gt => true,
        _ => false,
    };
    proof {
        let f = digits_val(d@.frac_digits);
        let pl = pow10(d@.frac_digits.len());
        assert((9 * pow10(10) * f > bound9(high_head@, '0') * pl) <==> ((pl - f) * pow10(10) < pl))
            by (nonlinear_arith)
            requires
                bound9(high_head@, '0') == 9 * 9999999999,
                pl >= 1,
                pow10(10) == 10000000000,
        ;
        assert(near_high == near_int_high(d@));
    }
    if near_high {
        let ic0 = strip_leading_zeros(&d.int_part);
        proof {
            lemma_strip_leading_props(d@.int_digits);
        }
        let ic = inc_digits(&ic0);
        proof {
            lemma_canonical_unique(ic@);
        }
        let mut out: Vec<char> = Vec::new();
        if d.neg {
            out.push('-');
        }
        let n = ic.len();
        append_range(&mut out, &ic, 0, n);
        proof {
            assert(ic@.subrange(0, n as int) =~= ic@);
            assert(out@ =~= sign_seq(d@.neg) + nat_to_digits(digits_val(d@.int_digits) + 1));
        }
        return chars_to_string(&out);
    }
    let w = round12(d);
    let sf = strip_trailing_zeros(&w.frac_part);
    let mut out: Vec<char> = Vec::new();
    if d.neg {
        out.push('-');
    }
    let wn = w.int_part.len();
    append_range(&mut out, &w.int_part, 0, wn);
    out.push('.');
    if sf.len() == 0 {
        out.push('0');
        proof {
            assert(w.int_part@.subrange(0, wn as int) =~= w.int_part@);
            assert(out@ =~= sign_seq(d@.neg) + round12_spec(d@).int_digits + seq!['.']
                + seq!['0']);
        }
    } else {
        let sn = sf.len();
        append_range(&mut out, &sf, 0, sn);
        proof {
            assert(w.int_part@.subrange(0, wn as int) =~= w.int_part@);
            assert(sf@.subrange(0, sn as int) =~= sf@);
            assert(out@ =~= sign_seq(d@.neg) + round12_spec(d@).int_digits + seq!['.']
                + strip_trailing_spec(round12_spec(d@).frac_digits));
        }
    }
    chars_to_string(&out)
}

} // verus!

verus! {

/// Padded digit strings are digit strings of their width.
pub proof fn lemma_pad_digits_ok(n: int, w: nat)
    ensures
        pad_digits(n, w).len() == w,
        digits_ok(pad_digits(n, w)),
    decreases w,
{
    if w > 0 {
        lemma_pad_digits_ok(n / 10, (w - 1) as nat);
        crate::digits::lemma_digit_char_val(n % 10);
        let t = pad_digits(n / 10, (w - 1) as nat);
        let s = t.push(crate::digits::digit_char(n % 10));
        assert(digits_ok(s)) by {
            assert(forall|i: int| 0 <= i < t.len() ==> s[i] == t[i]);
        }
    }
}

/// A parsed decimal numeral is well formed.
pub proof fn lemma_parse_spec_wf(s: Seq<char>)
    requires
        is_decimal_lit(s),
    ensures
        dec_wf(parse_spec(s)),
{
    let neg = s.len() > 0 && s[0] == '-';
    let t = if neg { s.skip(1) } else { s };
    assert(is_unsigned_decimal(t));
    lemma_find_char_props(t, '.');
    let p = find_char(t, '.');
    if digits_ok(t) {
        if p >= 0 {
            assert(is_digit_char(t[p]));
            assert(false);
        }
    } else {
        let q = choose|q: int| decimal_dot_at(t, q);
        assert(p >= 0) by {
            if p < 0 {
                assert(crate::chars::contains_char(t, '.')) by {
                    assert(t[q] == '.');
                }
                assert(false);
            }
        }
        assert(p == q) by {
            if p < q {
                assert(is_digit_char(t[p]));
            }
            if p > q {
                assert(t[q] != '.');
            }
        }
        assert(digits_ok(t.take(p))) by {
            assert(forall|i: int| 0 <= i < p ==> t.take(p)[i] == t[i]);
        }
        assert(digits_ok(t.skip(p + 1))) by {
            assert(forall|i: int| 0 <= i < t.len() - p - 1 ==> #[trigger] t.skip(p + 1)[i] == t[i + p + 1]);
        }
    }
}

/// A corrected value is well formed, with exactly twelve fraction
/// digits.
pub proof fn lemma_round_spec_wf(dv: DecimalView)
    ensures
        dec_wf(round_spec(dv)),
{
    lemma_round12_spec_wf(dv);
    assert(digits_ok(seq!['0'])) by {
        assert(is_digit_char(seq!['0'][0]));
    }
    lemma_digits12_ok('3', '0', '0');
    lemma_digits12_ok('7', '0', '0');
    lemma_digits12_ok('9', '0', '0');
    lemma_digits12_ok('1', '0', '0');
    lemma_digits12_ok('2', '0', '0');
    lemma_digits12_ok('4', '0', '0');
    lemma_digits12_ok('5', '0', '0');
    lemma_digits12_ok('6', '0', '0');
    lemma_digits12_ok('8', '0', '0');
    lemma_digits12_ok('3', '3', '3');
    lemma_digits12_ok('6', '6', '7');
}

proof fn lemma_digits12_ok(a: char, mid: char, last: char)
    requires
        is_digit_char(a),
        is_digit_char(mid),
        is_digit_char(last),
    ensures
        digits_ok(digits12(a, mid, last)),
{
    assert forall|i: int| 0 <= i < digits12(a, mid, last).len()
        implies is_digit_char(#[trigger] digits12(a, mid, last)[i]) by {
    }
}

/// A twelve-place rounding is well formed.
pub proof fn lemma_round12_spec_wf(dv: DecimalView)
    ensures
        dec_wf(round12_spec(dv)),
        round12_spec(dv).frac_digits.len() == 12,
        canonical_digits(round12_spec(dv).int_digits),
{
    crate::digits::lemma_nat_to_digits(round12_scaled(dv) / pow10(12));
    lemma_pad_digits_ok(round12_scaled(dv) % pow10(12), 12);
}

/// A value handed to the formatter that lies within `1e-10` of an
/// integer displays as that integer alone, with no decimal point.
pub proof fn lemma_near_integer_display(dv: DecimalView)
    requires
        dec_wf(dv),
        near_int_low(dv) || near_int_high(dv),
    ensures
        forall|i: int| 0 <= i < float_display_spec(dv).len()
            ==> #[trigger] float_display_spec(dv)[i] != '.',
{
    let out = float_display_spec(dv);
    lemma_pow10_pos(dv.frac_digits.len());
    lemma_digits_val_bounds(dv.frac_digits);
    let digits = if near_int_low(dv) {
        nat_to_digits(digits_val(dv.int_digits))
    } else {
        nat_to_digits(digits_val(dv.int_digits) + 1)
    };
    if near_int_low(dv) {
        crate::digits::lemma_nat_to_digits(digits_val(dv.int_digits));
    } else {
        crate::digits::lemma_nat_to_digits(digits_val(dv.int_digits) + 1);
    }
    assert(out == sign_seq(dv.neg) + digits);
    assert forall|i: int| 0 <= i < out.len() implies #[trigger] out[i] != '.' by {
        if dv.neg {
            if i == 0 {
                assert(out[i] == '-');
            } else {
                assert(out[i] == digits[i - 1]);
                assert(is_digit_char(digits[i - 1]));
            }
        } else {
            assert(out[i] == digits[i]);
            assert(is_digit_char(digits[i]));
        }
    }
}

} // verus!
