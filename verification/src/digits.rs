//! Decimal digit strings and their integer values.
//!
//! The value of a digit string, powers of ten, canonical decimal
//! renderings of integers, and executable helpers: comparison of a
//! decimal fraction against a repeating-decimal bound, increment with
//! carry, and stripping of redundant zeros.

use vstd::prelude::*;
use crate::chars::{is_digit_char, d_val, digits_ok};

verus! {

/// 10 to the power `n`.
pub open spec fn pow10(n: nat) -> int
    decreases n,
{
    if n == 0 {
        1
    } else {
        10 * pow10((n - 1) as nat)
    }
}

pub proof fn lemma_pow10_pos(n: nat)
    ensures
        pow10(n) >= 1,
    decreases n,
{
    if n > 0 {
        lemma_pow10_pos((n - 1) as nat);
    }
}

pub proof fn lemma_pow10_add(a: nat, b: nat)
    ensures
        pow10(a + b) == pow10(a) * pow10(b),
    decreases a,
{
    if a == 0 {
        assert(pow10(0 + b) == 1 * pow10(b));
    } else {
        lemma_pow10_add((a - 1) as nat, b);
        assert(pow10(a + b) == 10 * pow10(((a - 1) + b) as nat));
        assert(10 * ((pow10((a - 1) as nat)) * pow10(b)) == (10 * pow10((a - 1) as nat)) * pow10(b))
            by (nonlinear_arith);
    }
}

/// Value of a digit string, most significant digit first.
pub open spec fn digits_val(s: Seq<char>) -> int
    decreases s.len(),
{
    if s.len() == 0 {
        0
    } else {
        digits_val(s.drop_last()) * 10 + d_val(s.last())
    }
}

pub proof fn lemma_digits_val_bounds(s: Seq<char>)
    requires
        digits_ok(s),
    ensures
        0 <= digits_val(s) < pow10(s.len()),
    decreases s.len(),
{
    if s.len() > 0 {
        lemma_digits_val_bounds(s.drop_last());
        assert(is_digit_char(s[s.len() - 1]));
    }
}

pub proof fn lemma_digits_val_concat(a: Seq<char>, b: Seq<char>)
    ensures
        digits_val(a + b) == digits_val(a) * pow10(b.len()) + digits_val(b),
    decreases b.len(),
{
    if b.len() == 0 {
        assert(a + b =~= a);
    } else {
        lemma_digits_val_concat(a, b.drop_last());
        assert((a + b).drop_last() =~= a + b.drop_last());
        assert((a + b).last() == b.last());
        let va = digits_val(a);
        let p = pow10((b.len() - 1) as nat);
        assert(pow10(b.len()) == 10 * p);
        assert((va * p) * 10 == va * (10 * p)) by (nonlinear_arith);
    }
}

/// A digit string is zero exactly when all its digits are `'0'`.
pub proof fn lemma_digits_val_zero(s: Seq<char>)
    requires
        digits_ok(s),
    ensures
        (digits_val(s) == 0) <==> (forall|i: int| 0 <= i < s.len() ==> s[i] == '0'),
    decreases s.len(),
{
    if s.len() > 0 {
        lemma_digits_val_zero(s.drop_last());
        lemma_digits_val_bounds(s.drop_last());
        assert(is_digit_char(s[s.len() - 1]));
        if digits_val(s) == 0 {
            assert(digits_val(s.drop_last()) == 0);
            assert forall|i: int| 0 <= i < s.len() implies s[i] == '0' by {
                if i < s.len() - 1 {
                    assert(s.drop_last()[i] == s[i]);
                }
            }
        } else {
            if forall|i: int| 0 <= i < s.len() ==> s[i] == '0' {
                assert forall|i: int| 0 <= i < s.len() - 1 implies s.drop_last()[i] == '0' by {
                    assert(s.drop_last()[i] == s[i]);
                }
                assert(digits_val(s.drop_last()) == 0);
                assert(d_val(s.last()) == 0);
                assert(false);
            }
        }
    }
}

/// Equal-length digit strings compare numerically as they compare
/// lexicographically: a smaller digit at the first difference makes a
/// smaller value.
pub proof fn lemma_digits_lex(a: Seq<char>, b: Seq<char>, k: int)
    requires
        a.len() == b.len(),
        digits_ok(a),
        digits_ok(b),
        0 <= k < a.len(),
        forall|i: int| 0 <= i < k ==> a[i] == b[i],
        d_val(a[k]) < d_val(b[k]),
    ensures
        digits_val(a) < digits_val(b),
{
    let n = a.len() as int;
    let ha = a.take(k + 1);
    let ta = a.skip(k + 1);
    let hb = b.take(k + 1);
    let tb = b.skip(k + 1);
    assert(a =~= ha + ta);
    assert(b =~= hb + tb);
    lemma_digits_val_concat(ha, ta);
    lemma_digits_val_concat(hb, tb);
    assert(digits_ok(ta)) by {
        assert(forall|i: int| 0 <= i < ta.len() ==> ta[i] == a[i + k + 1]);
    }
    assert(digits_ok(tb)) by {
        assert(forall|i: int| 0 <= i < tb.len() ==> tb[i] == b[i + k + 1]);
    }
    lemma_digits_val_bounds(ta);
    lemma_digits_val_bounds(tb);
    assert(ha.drop_last() =~= a.take(k));
    assert(hb.drop_last() =~= b.take(k));
    assert(a.take(k) =~= b.take(k));
    assert(digits_val(ha) == digits_val(a.take(k)) * 10 + d_val(a[k]));
    assert(digits_val(hb) == digits_val(a.take(k)) * 10 + d_val(b[k]));
    let p = pow10(ta.len());
    assert(digits_val(hb) * p >= digits_val(ha) * p + p) by (nonlinear_arith)
        requires
            digits_val(hb) >= digits_val(ha) + 1,
            p >= 1,
    ;
    lemma_pow10_pos(ta.len());
}

/// Canonical decimal digits of a nonnegative integer.
pub open spec fn nat_to_digits(n: int) -> Seq<char>
    decreases n,
{
    if n <= 0 {
        seq!['0']
    } else if n < 10 {
        seq![digit_char(n)]
    } else {
        nat_to_digits(n / 10).push(digit_char(n % 10))
    }
}

/// The digit character for a value in 0..=9.
pub open spec fn digit_char(v: int) -> char {
    if v == 0 {
        '0'
    } else if v == 1 {
        '1'
    } else if v == 2 {
        '2'
    } else if v == 3 {
        '3'
    } else if v == 4 {
        '4'
    } else if v == 5 {
        '5'
    } else if v == 6 {
        '6'
    } else if v == 7 {
        '7'
    } else if v == 8 {
        '8'
    } else {
        '9'
    }
}

/// Canonical decimal rendering of an integer: a possible leading minus
/// sign, then digits with no leading zero.
pub open spec fn int_to_dec(v: int) -> Seq<char> {
    if v < 0 {
        seq!['-'] + nat_to_digits(-v)
    } else {
        nat_to_digits(v)
    }
}

/// A digit string with no redundant leading zero.
pub open spec fn canonical_digits(s: Seq<char>) -> bool {
    digits_ok(s) && s.len() >= 1 && (s.len() > 1 ==> s[0] != '0')
}

/// The digits of a nonnegative integer padded with leading zeros to a
/// fixed width.
pub open spec fn pad_digits(n: int, w: nat) -> Seq<char>
    decreases w,
{
    if w == 0 {
        Seq::empty()
    } else {
        pad_digits(n / 10, (w - 1) as nat).push(digit_char(n % 10))
    }
}

pub proof fn lemma_digit_char_val(v: int)
    requires
        0 <= v <= 9,
    ensures
        is_digit_char(digit_char(v)),
        d_val(digit_char(v)) == v,
{
}

pub proof fn lemma_digit_char_of_dval(c: char)
    requires
        is_digit_char(c),
    ensures
        digit_char(d_val(c)) == c,
{
}

/// Canonical renderings have no leading zeros and denote their value.
pub proof fn lemma_nat_to_digits(n: int)
    ensures
        canonical_digits(nat_to_digits(n)),
        digits_val(nat_to_digits(n)) == if n <= 0 { 0int } else { n },
        n >= 1 ==> nat_to_digits(n)[0] != '0',
    decreases n,
{
    if n <= 0 {
        assert(nat_to_digits(n) =~= seq!['0']);
        assert(seq!['0'].drop_last() =~= Seq::<char>::empty());
        assert(digits_val(Seq::<char>::empty()) == 0);
        assert(digits_val(seq!['0']) == 0);
    } else if n < 10 {
        lemma_digit_char_val(n);
        let s = seq![digit_char(n)];
        assert(s.drop_last() =~= Seq::<char>::empty());
        assert(digits_val(Seq::<char>::empty()) == 0);
        assert(digits_val(s) == n);
    } else {
        assert(0 <= n / 10 < n && 0 <= n % 10 <= 9 && n == (n / 10) * 10 + n % 10)
            by (nonlinear_arith)
            requires
                n >= 10,
        ;
        lemma_nat_to_digits(n / 10);
        lemma_digit_char_val(n % 10);
        let t = nat_to_digits(n / 10);
        let s = t.push(digit_char(n % 10));
        assert(s.drop_last() =~= t);
        assert(s.last() == digit_char(n % 10));
        assert(digits_val(s) == digits_val(t) * 10 + n % 10);
        assert(digits_val(s) == n);
        assert(s[0] == t[0]);
        assert(digits_ok(s)) by {
            assert(forall|i: int| 0 <= i < t.len() ==> s[i] == t[i]);
        }
    }
}

/// A canonical digit string is the canonical rendering of its value.
pub proof fn lemma_canonical_unique(s: Seq<char>)
    requires
        canonical_digits(s),
    ensures
        s == nat_to_digits(digits_val(s)),
    decreases s.len(),
{
    let n = digits_val(s);
    lemma_digits_val_bounds(s);
    if s.len() == 1 {
        lemma_digit_char_of_dval(s[0]);
        assert(s.drop_last() =~= Seq::<char>::empty());
        assert(digits_val(s.drop_last()) == 0);
        assert(n == d_val(s[0]));
        assert(s =~= nat_to_digits(n));
    } else {
        let t = s.drop_last();
        assert(digits_ok(t)) by {
            assert(forall|i: int| 0 <= i < t.len() ==> t[i] == s[i]);
        }
        assert(canonical_digits(t));
        lemma_digits_val_bounds(t);
        // the leading digit is nonzero, so the value needs all its digits
        assert(digits_val(t) >= 1) by {
            let h = t.take(1);
            let r = t.skip(1);
            assert(t =~= h + r);
            lemma_digits_val_concat(h, r);
            assert(digits_ok(r)) by {
                assert(forall|i: int| 0 <= i < r.len() ==> r[i] == t[i + 1]);
            }
            lemma_digits_val_bounds(r);
            assert(h.drop_last() =~= Seq::<char>::empty());
            assert(digits_val(h.drop_last()) == 0);
            assert(digits_val(h) == d_val(s[0]));
            assert(d_val(s[0]) >= 1);
            lemma_pow10_pos(r.len());
            assert(digits_val(h) * pow10(r.len()) >= pow10(r.len())) by (nonlinear_arith)
                requires
                    digits_val(h) >= 1,
                    pow10(r.len()) >= 1,
            ;
        }
        assert(n == digits_val(t) * 10 + d_val(s.last()));
        assert(n >= 10);
        vstd::arithmetic::div_mod::lemma_fundamental_div_mod_converse(
            n, 10, digits_val(t), d_val(s.last()));
        lemma_canonical_unique(t);
        lemma_digit_char_of_dval(s.last());
        assert(s =~= t.push(s.last()));
    }
}

/// A fixed-width digit string is the padded rendering of its value.
pub proof fn lemma_pad_unique(s: Seq<char>)
    requires
        digits_ok(s),
    ensures
        s == pad_digits(digits_val(s), s.len()),
    decreases s.len(),
{
    if s.len() > 0 {
        let t = s.drop_last();
        assert(digits_ok(t)) by {
            assert(forall|i: int| 0 <= i < t.len() ==> t[i] == s[i]);
        }
        let n = digits_val(s);
        lemma_digits_val_bounds(t);
        assert(n == digits_val(t) * 10 + d_val(s.last()));
        vstd::arithmetic::div_mod::lemma_fundamental_div_mod_converse(
            n, 10, digits_val(t), d_val(s.last()));
        lemma_pad_unique(t);
        lemma_digit_char_of_dval(s.last());
        assert(s =~= t.push(s.last()));
    } else {
        assert(s =~= pad_digits(0, 0));
    }
}

/// Value of a run of one repeated digit, scaled by 9: a run of `r`s of
/// length `k` is `d(r) * (10^k - 1) / 9`.
pub proof fn lemma_digits_val_const(s: Seq<char>, r: char)
    requires
        forall|i: int| 0 <= i < s.len() ==> s[i] == r,
    ensures
        9 * digits_val(s) == d_val(r) * (pow10(s.len()) - 1),
    decreases s.len(),
{
    if s.len() > 0 {
        let k = s.len();
        let t = s.drop_last();
        assert(forall|i: int| 0 <= i < t.len() ==> t[i] == s[i]);
        lemma_digits_val_const(t, r);
        assert(s.last() == s[k - 1] == r);
        assert(digits_val(s) == digits_val(t) * 10 + d_val(r));
        assert(t.len() == (k - 1) as nat);
        assert(pow10(k) == 10 * pow10((k - 1) as nat));
        assert(9 * digits_val(s) == d_val(r) * (pow10(k) - 1)) by (nonlinear_arith)
            requires
                digits_val(s) == digits_val(t) * 10 + d_val(r),
                9 * digits_val(t) == d_val(r) * (pow10((k - 1) as nat) - 1),
                pow10(k) == 10 * pow10((k - 1) as nat),
        ;
        assert(s.len() == k);
    } else {
        assert(digits_val(s) == 0);
        assert(pow10(s.len()) == 1);
    }
}

/// Multiplying both sides by a positive factor keeps order.
pub proof fn lemma_mul_iff(x: int, y: int, p: int)
    requires
        p > 0,
    ensures
        (x < y) <==> (x * p < y * p),
        (x == y) <==> (x * p == y * p),
    decreases p,
{
    assert((x < y) <==> (x * p < y * p)) by (nonlinear_arith)
        requires
            p > 0,
    ;
    assert((x == y) <==> (x * p == y * p)) by (nonlinear_arith)
        requires
            p > 0,
    ;
}

/// Three-way comparison result.
#[derive(PartialEq, Eq, Structural)]
pub enum Cmp {
    Lt,
    Eq,
    Gt,
}

/// The bound digits `head` followed by `rep` repeating forever denote
/// the rational `(9 * value(head) + d(rep)) / (9 * 10^10)`.
pub open spec fn bound9(head: Seq<char>, rep: char) -> int {
    9 * digits_val(head) + d_val(rep)
}

/// Compare the fraction `0.f` against the bound whose first ten
/// fraction digits are `head` and whose digits from there on are all
/// `rep`.  The comparison of the two rationals, cleared of
/// denominators, is `9 * 10^10 * value(f)` against
/// `bound9(head, rep) * 10^len(f)`.
pub fn cmp_frac_bound(f: &Vec<char>, head: &Vec<char>, rep: char) -> (r: Cmp)
    requires
        digits_ok(f@),
        digits_ok(head@),
        head@.len() == 10,
        is_digit_char(rep),
        d_val(rep) <= 8,
    ensures
        (r == Cmp::Lt) <==> 9 * pow10(10) * digits_val(f@) < bound9(head@, rep) * pow10(f@.len()),
        (r == Cmp::Eq) <==> 9 * pow10(10) * digits_val(f@) == bound9(head@, rep) * pow10(f@.len()),
        (r == Cmp::Gt) <==> 9 * pow10(10) * digits_val(f@) > bound9(head@, rep) * pow10(f@.len()),
{
    let l = f.len();
    let n: usize = if l > 10 { l } else { 10 };
    let ghost fs = Seq::new(n as nat, |i: int| if i < l { f@[i] } else { '0' });
    let ghost bs = Seq::new(n as nat, |i: int| if i < 10 { head@[i] } else { rep });
    proof {
        lemma_cmp_frac_scale(f@, head@, rep, n as nat);
    }
    let mut i: usize = 0;
    while i < n
        invariant
            n == fs.len() == bs.len(),
            n >= l == f@.len(),
            n >= 10 == head@.len(),
            digits_ok(f@),
            digits_ok(head@),
            is_digit_char(rep),
            d_val(rep) <= 8,
            fs == Seq::new(n as nat, |i: int| if i < l { f@[i] } else { '0' }),
            bs == Seq::new(n as nat, |i: int| if i < 10 { head@[i] } else { rep }),
            0 <= i <= n,
            forall|j: int| 0 <= j < i ==> fs[j] == bs[j],
            9 * pow10(10) * digits_val(f@) < bound9(head@, rep) * pow10(f@.len())
                <==> 9 * digits_val(fs) < 9 * digits_val(bs) + d_val(rep),
            9 * pow10(10) * digits_val(f@) == bound9(head@, rep) * pow10(f@.len())
                <==> 9 * digits_val(fs) == 9 * digits_val(bs) + d_val(rep),
        decreases n - i,
    {
        let fd = if i < l { f[i] } else { '0' };
        let bd = if i < 10 { head[i] } else { rep };
        let fu = fd as u32;
        let bu = bd as u32;
        proof {
            assert(fs[i as int] == fd);
            assert(bs[i as int] == bd);
            assert(digits_ok(fs));
            assert(digits_ok(bs));
        }
        if fu < bu {
            proof {
                lemma_digits_lex(fs, bs, i as int);
            }
            return Cmp::Lt;
        }
        if fu > bu {
            proof {
                lemma_digits_lex(bs, fs, i as int);
            }
            return Cmp::Gt;
        }
        i = i + 1;
    }
    proof {
        assert(fs =~= bs);
    }
    let ru = rep as u32;
    if ru > 48 {
        Cmp::Lt
    } else {
        Cmp::Eq
    }
}

/// Digit strings with the trailing zeros removed.
pub open spec fn strip_trailing_spec(s: Seq<char>) -> Seq<char>
    decreases s.len(),
{
    if s.len() == 0 || s.last() != '0' {
        s
    } else {
        strip_trailing_spec(s.drop_last())
    }
}

/// Digit strings with redundant leading zeros removed; a single zero
/// digit stays.
pub open spec fn strip_leading_spec(s: Seq<char>) -> Seq<char>
    decreases s.len(),
{
    if s.len() <= 1 || s[0] != '0' {
        s
    } else {
        strip_leading_spec(s.skip(1))
    }
}

pub proof fn lemma_strip_leading_props(s: Seq<char>)
    requires
        digits_ok(s),
        s.len() >= 1,
    ensures
        canonical_digits(strip_leading_spec(s)),
        digits_val(strip_leading_spec(s)) == digits_val(s),
    decreases s.len(),
{
    if s.len() > 1 && s[0] == '0' {
        let t = s.skip(1);
        assert(forall|i: int| 0 <= i < t.len() ==> t[i] == s[i + 1]);
        lemma_strip_leading_props(t);
        let h = s.take(1);
        assert(s =~= h + t);
        lemma_digits_val_concat(h, t);
        assert(h.drop_last() =~= Seq::<char>::empty());
        assert(digits_val(Seq::<char>::empty()) == 0);
        assert(h.last() == s[0]);
        assert(digits_val(h) == d_val('0') == 0);
    }
}

/// Remove trailing `'0'` characters.
pub fn strip_trailing_zeros(f: &Vec<char>) -> (r: Vec<char>)
    ensures
        r@ == strip_trailing_spec(f@),
{
    let mut m = f.len();
    assert(f@.take(f@.len() as int) =~= f@);
    while m > 0 && f[m - 1] == '0'
        invariant
            0 <= m <= f@.len(),
            strip_trailing_spec(f@) == strip_trailing_spec(f@.take(m as int)),
        decreases m,
    {
        proof {
            assert(f@.take(m as int).last() == f@[m - 1]);
            assert(f@.take(m as int).drop_last() =~= f@.take(m - 1));
        }
        m = m - 1;
    }
    proof {
        if m > 0 {
            assert(f@.take(m as int).last() == f@[m - 1]);
        }
        assert(strip_trailing_spec(f@.take(m as int)) == f@.take(m as int));
    }
    let mut r: Vec<char> = Vec::new();
    let mut i: usize = 0;
    while i < m
        invariant
            0 <= i <= m <= f@.len(),
            r@ =~= f@.take(m as int).take(i as int),
        decreases m - i,
    {
        r.push(f[i]);
        assert(r@ =~= f@.take(m as int).take(i + 1));
        i = i + 1;
    }
    assert(f@.take(m as int).take(m as int) =~= f@.take(m as int));
    r
}

/// Remove redundant leading `'0'` characters, keeping at least one
/// digit.
pub fn strip_leading_zeros(f: &Vec<char>) -> (r: Vec<char>)
    requires
        f@.len() >= 1,
    ensures
        r@ == strip_leading_spec(f@),
{
    let n = f.len();
    let mut st: usize = 0;
    assert(f@.skip(0) =~= f@);
    while st < n - 1 && f[st] == '0'
        invariant
            n == f@.len() >= 1,
            0 <= st <= n - 1,
            strip_leading_spec(f@) == strip_leading_spec(f@.skip(st as int)),
        decreases n - st,
    {
        proof {
            let t = f@.skip(st as int);
            assert(t[0] == f@[st as int]);
            assert(t.skip(1) =~= f@.skip(st + 1));
        }
        st = st + 1;
    }
    proof {
        let t = f@.skip(st as int);
        assert(t[0] == f@[st as int]);
        assert(strip_leading_spec(t) == t);
    }
    let mut r: Vec<char> = Vec::new();
    let mut i: usize = st;
    while i < n
        invariant
            st <= i <= n == f@.len(),
            r@ =~= f@.subrange(st as int, i as int),
        decreases n - i,
    {
        r.push(f[i]);
        assert(r@ =~= f@.subrange(st as int, i + 1));
        i = i + 1;
    }
    assert(f@.subrange(st as int, n as int) =~= f@.skip(st as int));
    r
}

/// The next digit character: `'3'` becomes `'4'`.
pub fn digit_inc(c: char) -> (r: char)
    requires
        is_digit_char(c),
        d_val(c) <= 8,
    ensures
        is_digit_char(r),
        d_val(r) == d_val(c) + 1,
{
    match c {
        '0' => '1',
        '1' => '2',
        '2' => '3',
        '3' => '4',
        '4' => '5',
        '5' => '6',
        '6' => '7',
        '7' => '8',
        _ => '9',
    }
}

/// Add one to a digit string, carrying as needed; the result may be one
/// digit longer.
pub fn inc_digits(ds: &Vec<char>) -> (r: Vec<char>)
    requires
        digits_ok(ds@),
    ensures
        digits_ok(r@),
        digits_val(r@) == digits_val(ds@) + 1,
        r@.len() == ds@.len() || r@.len() == ds@.len() + 1,
        r@.len() == ds@.len() + 1 ==> r@[0] == '1',
        r@.len() == ds@.len() && ds@.len() > 0 ==> d_val(r@[0]) >= d_val(ds@[0]),
        canonical_digits(ds@) ==> canonical_digits(r@),
{
    let n = ds.len();
    let mut j = n;
    while j > 0 && ds[j - 1] == '9'
        invariant
            0 <= j <= n == ds@.len(),
            digits_ok(ds@),
            forall|i: int| j <= i < n ==> ds@[i] == '9',
        decreases j,
    {
        j = j - 1;
    }
    let ghost nines = ds@.skip(j as int);
    proof {
        assert(forall|i: int| 0 <= i < nines.len() ==> nines[i] == '9');
        lemma_digits_val_const(nines, '9');
        assert(digits_ok(nines));
        assert(9 * digits_val(nines) == 9 * (pow10((n - j) as nat) - 1));
        assert(digits_val(nines) == pow10((n - j) as nat) - 1);
        lemma_pow10_pos((n - j) as nat);
    }
    if j == 0 {
        // all digits are nines: 99..9 + 1 == 100..0
        let mut r: Vec<char> = Vec::new();
        r.push('1');
        let mut i: usize = 0;
        while i < n
            invariant
                0 <= i <= n,
                r@.len() == i + 1,
                r@[0] == '1',
                forall|k: int| 1 <= k <= i ==> r@[k] == '0',
            decreases n - i,
        {
            r.push('0');
            i = i + 1;
        }
        proof {
            assert(ds@ =~= nines);
            let one = r@.take(1);
            let zeros = r@.skip(1);
            assert(r@ =~= one + zeros);
            lemma_digits_val_concat(one, zeros);
            assert(one.drop_last() =~= Seq::<char>::empty());
            assert(digits_val(Seq::<char>::empty()) == 0);
            assert(one.last() == r@[0] == '1');
            assert(digits_val(one) == 1);
            assert(forall|i: int| 0 <= i < zeros.len() ==> zeros[i] == '0');
            assert(digits_ok(zeros));
            lemma_digits_val_zero(zeros);
            assert(digits_val(zeros) == 0);
            assert(zeros.len() == n as nat);
            assert(digits_val(r@) == 1 * pow10(n as nat) + 0);
            assert(digits_val(r@) == pow10(n as nat));
            assert(digits_ok(r@));
        }
        r
    } else {
        let mut r: Vec<char> = Vec::new();
        let mut i: usize = 0;
        while i < j - 1
            invariant
                0 <= i <= j - 1 < n == ds@.len(),
                digits_ok(ds@),
                r@ =~= ds@.take(i as int),
            decreases j - i,
        {
            r.push(ds[i]);
            assert(r@ =~= ds@.take(i + 1));
            i = i + 1;
        }
        let up = digit_inc(ds[j - 1]);
        r.push(up);
        let mut k: usize = j;
        while k < n
            invariant
                0 < j <= k <= n == ds@.len(),
                r@.len() == k,
                r@ =~= ds@.take(j - 1).push(up) + Seq::new((k - j) as nat, |i: int| '0'),
            decreases n - k,
        {
            r.push('0');
            assert(r@ =~= ds@.take(j - 1).push(up) + Seq::new((k + 1 - j) as nat, |i: int| '0'));
            k = k + 1;
        }
        proof {
            let pre = ds@.take(j - 1);
            let zeros = Seq::new((n - j) as nat, |i: int| '0');
            assert(r@ =~= (pre.push(up)) + zeros);
            assert(ds@ =~= (pre.push(ds@[j - 1])) + nines);
            lemma_digits_val_concat(pre.push(up), zeros);
            lemma_digits_val_concat(pre.push(ds@[j - 1]), nines);
            assert(digits_ok(zeros));
            lemma_digits_val_zero(zeros);
            assert((pre.push(up)).drop_last() =~= pre);
            assert((pre.push(ds@[j - 1])).drop_last() =~= pre);
            assert(digits_val(pre.push(up)) == digits_val(pre) * 10 + d_val(ds@[j - 1]) + 1);
            let p = pow10((n - j) as nat);
            assert(digits_val(r@) == (digits_val(pre) * 10 + d_val(ds@[j - 1]) + 1) * p);
            assert(digits_val(ds@) == (digits_val(pre) * 10 + d_val(ds@[j - 1])) * p + (p - 1));
            assert((digits_val(pre) * 10 + d_val(ds@[j - 1]) + 1) * p
                == (digits_val(pre) * 10 + d_val(ds@[j - 1])) * p + p) by (nonlinear_arith);
            assert(digits_ok(r@)) by {
                assert(forall|i: int| 0 <= i < j - 1 ==> r@[i] == ds@[i]);
            }
            if j >= 2 {
                assert(r@[0] == ds@[0]);
            }
            assert(r@.len() == ds@.len());
        }
        r
    }
}

/// Build the ten bound digits: one leading digit, eight middle copies,
/// one final digit.
pub fn make_head3(a: char, mid: char, last: char) -> (r: Vec<char>)
    requires
        is_digit_char(a),
        is_digit_char(mid),
        is_digit_char(last),
    ensures
        r@.len() == 10,
        digits_ok(r@),
        digits_val(r@) == d_val(a) * 1000000000 + d_val(mid) * 111111110 + d_val(last),
{
    let mut r: Vec<char> = Vec::new();
    r.push(a);
    let mut i: usize = 0;
    while i < 8
        invariant
            0 <= i <= 8,
            r@.len() == i + 1,
            r@[0] == a,
            forall|k: int| 1 <= k <= i ==> r@[k] == mid,
        decreases 8 - i,
    {
        r.push(mid);
        i = i + 1;
    }
    r.push(last);
    proof {
        lemma_head3_val(r@, a, mid, last);
    }
    r
}

proof fn lemma_head3_val(s: Seq<char>, a: char, mid: char, last: char)
    requires
        s.len() == 10,
        s[0] == a,
        forall|k: int| 1 <= k <= 8 ==> s[k] == mid,
        s[9] == last,
        is_digit_char(a),
        is_digit_char(mid),
        is_digit_char(last),
    ensures
        digits_ok(s),
        digits_val(s) == d_val(a) * 1000000000 + d_val(mid) * 111111110 + d_val(last),
{
    let t1 = s.take(1);
    let t2 = s.take(2);
    let t3 = s.take(3);
    let t4 = s.take(4);
    let t5 = s.take(5);
    let t6 = s.take(6);
    let t7 = s.take(7);
    let t8 = s.take(8);
    let t9 = s.take(9);
    assert(t1.drop_last() =~= Seq::<char>::empty());
    assert(digits_val(Seq::<char>::empty()) == 0);
    assert(t1.last() == s[0]);
    assert(digits_val(t1) == d_val(a));
    assert(t2.drop_last() =~= t1 && t2.last() == s[1]);
    assert(digits_val(t2) == digits_val(t1) * 10 + d_val(mid));
    assert(t3.drop_last() =~= t2 && t3.last() == s[2]);
    assert(digits_val(t3) == digits_val(t2) * 10 + d_val(mid));
    assert(t4.drop_last() =~= t3 && t4.last() == s[3]);
    assert(digits_val(t4) == digits_val(t3) * 10 + d_val(mid));
    assert(t5.drop_last() =~= t4 && t5.last() == s[4]);
    assert(digits_val(t5) == digits_val(t4) * 10 + d_val(mid));
    assert(t6.drop_last() =~= t5 && t6.last() == s[5]);
    assert(digits_val(t6) == digits_val(t5) * 10 + d_val(mid));
    assert(t7.drop_last() =~= t6 && t7.last() == s[6]);
    assert(digits_val(t7) == digits_val(t6) * 10 + d_val(mid));
    assert(t8.drop_last() =~= t7 && t8.last() == s[7]);
    assert(digits_val(t8) == digits_val(t7) * 10 + d_val(mid));
    assert(t9.drop_last() =~= t8 && t9.last() == s[8]);
    assert(digits_val(t9) == digits_val(t8) * 10 + d_val(mid));
    assert(s.drop_last() =~= t9 && s.last() == s[9]);
    assert(digits_val(s) == digits_val(t9) * 10 + d_val(last));
    assert(digits_val(s) == d_val(a) * 1000000000 + d_val(mid) * 111111110 + d_val(last));
}

/// Clearing denominators: comparing `0.f` against the repeating bound
/// is comparing the padded digit strings of length `n`.
proof fn lemma_cmp_frac_scale(f: Seq<char>, head: Seq<char>, rep: char, n: nat)
    requires
        digits_ok(f),
        digits_ok(head),
        head.len() == 10,
        is_digit_char(rep),
        n >= f.len(),
        n >= 10,
    ensures
        9 * pow10(10) * digits_val(f) < bound9(head, rep) * pow10(f.len())
            <==> 9 * digits_val(Seq::new(n, |i: int| if i < f.len() { f[i] } else { '0' }))
                < 9 * digits_val(Seq::new(n, |i: int| if i < 10 { head[i] } else { rep })) + d_val(rep),
        9 * pow10(10) * digits_val(f) == bound9(head, rep) * pow10(f.len())
            <==> 9 * digits_val(Seq::new(n, |i: int| if i < f.len() { f[i] } else { '0' }))
                == 9 * digits_val(Seq::new(n, |i: int| if i < 10 { head[i] } else { rep })) + d_val(rep),
{
    let l = f.len();
    let fs = Seq::new(n, |i: int| if i < l { f[i] } else { '0' });
    let bs = Seq::new(n, |i: int| if i < 10 { head[i] } else { rep });
    let zeros = Seq::new((n - l) as nat, |i: int| '0');
    let reps = Seq::new((n - 10) as nat, |i: int| rep);
    assert(fs =~= f + zeros);
    assert(bs =~= head + reps);
    lemma_digits_val_concat(f, zeros);
    lemma_digits_val_concat(head, reps);
    assert(digits_ok(zeros));
    lemma_digits_val_zero(zeros);
    assert(digits_val(fs) == digits_val(f) * pow10((n - l) as nat));
    lemma_digits_val_const(reps, rep);
    let pnl = pow10((n - l) as nat);
    let pn10 = pow10((n - 10) as nat);
    let p10 = pow10(10);
    let pl = pow10(l);
    lemma_pow10_pos((n - l) as nat);
    lemma_pow10_pos((n - 10) as nat);
    lemma_pow10_pos(10);
    lemma_pow10_pos(l);
    // 9 * bs + rep == bound9 * 10^(n-10)
    assert(9 * digits_val(bs) + d_val(rep) == bound9(head, rep) * pn10) by (nonlinear_arith)
        requires
            digits_val(bs) == digits_val(head) * pn10 + digits_val(reps),
            9 * digits_val(reps) == d_val(rep) * (pn10 - 1),
            bound9(head, rep) == 9 * digits_val(head) + d_val(rep),
    ;
    // left sides scale by 10^(n-l)
    let a = 9 * p10 * digits_val(f);
    let b = bound9(head, rep) * pl;
    lemma_mul_iff(a, b, pnl);
    assert(a * pnl == 9 * p10 * digits_val(fs)) by (nonlinear_arith)
        requires
            digits_val(fs) == digits_val(f) * pnl,
            a == 9 * p10 * digits_val(f),
    ;
    assert(b * pnl == bound9(head, rep) * (pl * pnl)) by (nonlinear_arith)
        requires
            b == bound9(head, rep) * pl,
    ;
    lemma_pow10_add(l, (n - l) as nat);
    assert(pl * pnl == pow10(n));
    lemma_pow10_add(10, (n - 10) as nat);
    assert(pow10(n) == p10 * pn10);
    assert(bound9(head, rep) * (p10 * pn10) == (bound9(head, rep) * pn10) * p10) by (nonlinear_arith);
    assert(9 * p10 * digits_val(fs) == (9 * digits_val(fs)) * p10) by (nonlinear_arith);
    lemma_mul_iff(9 * digits_val(fs), 9 * digits_val(bs) + d_val(rep), p10);
}

} // verus!
