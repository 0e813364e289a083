//! Expressions and business rules: normalization, the lexical
//! division-by-zero detector, the integer-eligibility classifier, and
//! the result type.

use vstd::prelude::*;
use crate::chars::{
    is_digit_char, contains_char, find_char, count_char,
    lemma_find_char_props, lemma_count_char_concat, lemma_count_char_absent,
    char_is_digit, str_to_chars, chars_to_string, copy_range, append_range,
};
use crate::numfmt::{Decimal, DecimalView, dec_wf, float_display_spec, format_decimal};
use crate::evaluator::{meval_display, eval_display};

verus! {

/// The localized multiplication and division glyphs become the ASCII
/// operators; all other characters stay.
pub open spec fn glyph_spec(c: char) -> char {
    if c == '\u{d7}' {
        '*'
    } else if c == '\u{f7}' {
        '/'
    } else {
        c
    }
}

pub open spec fn glyph_map(s: Seq<char>) -> Seq<char> {
    s.map_values(|c: char| glyph_spec(c))
}

/// A character that can be part of a numeric literal.
pub open spec fn is_num_char(c: char) -> bool {
    is_digit_char(c) || c == '.'
}

/// Start of the numeric literal that ends just before position `i`:
/// scan backward while the characters are digits or dots.
pub open spec fn back_scan(s: Seq<char>, i: int) -> int
    decreases i,
{
    if i <= 0 {
        0
    } else if is_num_char(s[i - 1]) {
        back_scan(s, i - 1)
    } else {
        i
    }
}

pub proof fn lemma_back_scan_props(s: Seq<char>, i: int)
    requires
        0 <= i <= s.len(),
    ensures
        0 <= back_scan(s, i) <= i,
        forall|j: int| back_scan(s, i) <= j < i ==> is_num_char(#[trigger] s[j]),
    decreases i,
{
    if i > 0 && is_num_char(s[i - 1]) {
        lemma_back_scan_props(s, i - 1);
    }
}

/// One percent rewrite: at the first `%`, the numeric literal directly
/// before it (possibly empty) is found; `X%` becomes `(X/100)`, a bare
/// `%` is dropped.
pub open spec fn pct_step(s: Seq<char>) -> Seq<char> {
    let p = find_char(s, '%');
    let st = back_scan(s, p);
    if st == p {
        s.take(p) + s.skip(p + 1)
    } else {
        s.take(st) + seq!['('] + s.subrange(st, p) + seq!['/', '1', '0', '0', ')'] + s.skip(p + 1)
    }
}

pub proof fn lemma_pct_step_count(s: Seq<char>)
    requires
        find_char(s, '%') >= 0,
    ensures
        count_char(pct_step(s), '%') < count_char(s, '%'),
{
    let p = find_char(s, '%');
    lemma_find_char_props(s, '%');
    let st = back_scan(s, p);
    lemma_back_scan_props(s, p);
    // the whole string counts the first `%` plus whatever follows it
    assert(s =~= s.take(p + 1) + s.skip(p + 1));
    lemma_count_char_concat(s.take(p + 1), s.skip(p + 1), '%');
    assert(s.take(p + 1).drop_last() =~= s.take(p));
    assert(s.take(p + 1).last() == '%');
    assert(count_char(s.take(p + 1), '%') == count_char(s.take(p), '%') + 1);
    assert(forall|i: int| 0 <= i < p ==> s.take(p)[i] == s[i]);
    lemma_count_char_absent(s.take(p), '%');
    assert(count_char(s, '%') == 1 + count_char(s.skip(p + 1), '%'));
    if st == p {
        lemma_count_char_concat(s.take(p), s.skip(p + 1), '%');
    } else {
        let a = s.take(st);
        let b = seq!['('];
        let c = s.subrange(st, p);
        let d = seq!['/', '1', '0', '0', ')'];
        let e = s.skip(p + 1);
        lemma_count_char_concat(a + b + c + d, e, '%');
        lemma_count_char_concat(a + b + c, d, '%');
        lemma_count_char_concat(a + b, c, '%');
        lemma_count_char_concat(a, b, '%');
        assert(forall|i: int| 0 <= i < a.len() ==> a[i] == s[i]);
        lemma_count_char_absent(a, '%');
        lemma_count_char_absent(b, '%');
        assert(forall|i: int| 0 <= i < c.len() ==> c[i] == s[i + st]);
        lemma_count_char_absent(c, '%');
        lemma_count_char_absent(d, '%');
    }
}

/// Expand every percent suffix, first one first.
pub open spec fn pct_expand(s: Seq<char>) -> Seq<char>
    decreases count_char(s, '%'),
    via pct_expand_dec
{
    if find_char(s, '%') < 0 {
        s
    } else {
        pct_expand(pct_step(s))
    }
}

#[via_fn]
proof fn pct_expand_dec(s: Seq<char>) {
    if find_char(s, '%') >= 0 {
        lemma_pct_step_count(s);
    }
}

/// Normalization: replace the localized glyphs, then expand percent
/// suffixes.  It never fails; unrecognized text passes through.
pub open spec fn normalize_spec(s: Seq<char>) -> Seq<char> {
    pct_expand(glyph_map(s))
}

/// Replace one localized glyph.
pub fn glyph_exec(c: char) -> (r: char)
    ensures
        r == glyph_spec(c),
{
    if c == '\u{d7}' {
        '*'
    } else if c == '\u{f7}' {
        '/'
    } else {
        c
    }
}

/// Index of the first `c` in `v`, or the length when absent; agrees
/// with `find_char`.
pub fn find_char_exec(v: &Vec<char>, c: char) -> (r: usize)
    ensures
        r <= v@.len(),
        r < v@.len() ==> find_char(v@, c) == r,
        r == v@.len() ==> find_char(v@, c) < 0,
{
    let mut i: usize = 0;
    while i < v.len()
        invariant
            0 <= i <= v@.len(),
            forall|j: int| 0 <= j < i ==> v@[j] != c,
        decreases v@.len() - i,
    {
        if v[i] == c {
            proof {
                lemma_find_char_props(v@, c);
                if find_char(v@, c) < 0 {
                    assert(contains_char(v@, c)) by {
                        assert(v@[i as int] == c);
                    }
                    assert(false);
                }
                let f = find_char(v@, c);
                if f < i {
                    assert(v@[f] != c);
                }
                if f > i {
                    assert(v@[i as int] != c);
                }
            }
            return i;
        }
        i = i + 1;
    }
    proof {
        lemma_find_char_props(v@, c);
        if find_char(v@, c) >= 0 {
            assert(v@[find_char(v@, c)] == c);
            assert(false);
        }
    }
    i
}

} // verus!

verus! {

/// Mathematical expression to be calculated.
pub struct Expression(pub String);

impl View for Expression {
    type V = Seq<char>;

    open spec fn view(&self) -> Seq<char> {
        self.0@
    }
}

impl Expression {
    /// Create a new expression.
    pub fn new(expression: String) -> (r: Self)
        ensures
            r@ == expression@,
    {
        Expression(expression)
    }

    /// Normalize the expression to the form the evaluators understand:
    /// ASCII operators, percent suffixes expanded.
    pub fn normalize(&self) -> (r: String)
        ensures
            r@ == normalize_spec(self@),
    {
        let chars = str_to_chars(self.0.as_str());
        let n = chars.len();
        let mut cur: Vec<char> = Vec::new();
        let mut i: usize = 0;
        while i < n
            invariant
                n == chars@.len(),
                0 <= i <= n,
                cur@.len() == i,
                forall|j: int| 0 <= j < i ==> cur@[j] == glyph_spec(chars@[j]),
            decreases n - i,
        {
            let g = glyph_exec(chars[i]);
            cur.push(g);
            i = i + 1;
        }
        let ghost base = glyph_map(self@);
        proof {
            assert(cur@ =~= base);
        }
        let mut p = find_char_exec(&cur, '%');
        while p < cur.len()
            invariant
                pct_expand(cur@) == pct_expand(base),
                p <= cur@.len(),
                p < cur@.len() ==> find_char(cur@, '%') == p as int,
                p == cur@.len() ==> find_char(cur@, '%') < 0,
            decreases count_char(cur@, '%'),
        {
            proof {
                lemma_find_char_props(cur@, '%');
            }
            // scan backward over the numeric literal before the `%`
            let mut st = p;
            let mut scanning = true;
            while scanning && st > 0
                invariant
                    st <= p < cur@.len(),
                    back_scan(cur@, p as int) == back_scan(cur@, st as int),
                    !scanning ==> (st > 0 && !is_num_char(cur@[st as int - 1])),
                decreases st, (if scanning { 1int } else { 0int }),
            {
                let c = cur[st - 1];
                let isnum = char_is_digit(c) || c == '.';
                if isnum {
                    proof {
                        assert(is_num_char(cur@[st as int - 1]));
                    }
                    st = st - 1;
                } else {
                    scanning = false;
                }
            }
            proof {
                assert(back_scan(cur@, st as int) == st as int);
                assert(back_scan(cur@, p as int) == st as int);
            }
            let n2 = cur.len();
            let ghost before = cur@;
            let mut next: Vec<char>;
            if st == p {
                next = copy_range(&cur, 0, p);
                append_range(&mut next, &cur, p + 1, n2);
                proof {
                    assert(next@ =~= before.take(p as int) + before.skip(p as int + 1));
                    assert(next@ == pct_step(before));
                }
            } else {
                next = copy_range(&cur, 0, st);
                next.push('(');
                append_range(&mut next, &cur, st, p);
                next.push('/');
                next.push('1');
                next.push('0');
                next.push('0');
                next.push(')');
                append_range(&mut next, &cur, p + 1, n2);
                proof {
                    assert(next@ =~= before.take(st as int) + seq!['(']
                        + before.subrange(st as int, p as int)
                        + seq!['/', '1', '0', '0', ')'] + before.skip(p as int + 1));
                    assert(next@ == pct_step(before));
                }
            }
            proof {
                lemma_pct_step_count(before);
                assert(pct_expand(before) == pct_expand(pct_step(before)));
            }
            cur = next;
            p = find_char_exec(&cur, '%');
        }
        proof {
            assert(pct_expand(cur@) == cur@);
        }
        chars_to_string(&cur)
    }
}

/// Normalizing an already-normalized string changes nothing: the first
/// pass leaves no glyph and no percent sign for a second one.
pub proof fn lemma_normalize_idempotent(s: Seq<char>)
    ensures
        normalize_spec(normalize_spec(s)) == normalize_spec(s),
{
    let g = glyph_map(s);
    let out = pct_expand(g);
    lemma_no_glyphs_glyph_map(s);
    lemma_pct_expand_keeps(g);
    lemma_glyph_map_id(out);
    lemma_pct_expand_id(out);
}

/// No character of a glyph-mapped string is a localized glyph.
pub open spec fn no_glyphs(s: Seq<char>) -> bool {
    forall|i: int| 0 <= i < s.len() ==> glyph_spec(#[trigger] s[i]) == s[i]
}

proof fn lemma_no_glyphs_glyph_map(s: Seq<char>)
    ensures
        no_glyphs(glyph_map(s)),
{
    assert forall|i: int| 0 <= i < glyph_map(s).len()
        implies glyph_spec(#[trigger] glyph_map(s)[i]) == glyph_map(s)[i] by {
        assert(glyph_map(s)[i] == glyph_spec(s[i]));
    }
}

/// Glyph replacement does nothing to a string without glyphs.
proof fn lemma_glyph_map_id(s: Seq<char>)
    requires
        no_glyphs(s),
    ensures
        glyph_map(s) == s,
{
    assert(glyph_map(s) =~= s);
}

/// Percent expansion leaves no percent sign and introduces no glyph.
proof fn lemma_pct_expand_keeps(s: Seq<char>)
    requires
        no_glyphs(s),
    ensures
        find_char(pct_expand(s), '%') < 0,
        no_glyphs(pct_expand(s)),
    decreases count_char(s, '%'),
{
    if find_char(s, '%') >= 0 {
        lemma_pct_step_count(s);
        lemma_pct_step_keeps(s);
        lemma_pct_expand_keeps(pct_step(s));
    }
}

/// One percent rewrite step keeps the string glyph-free.
proof fn lemma_pct_step_keeps(s: Seq<char>)
    requires
        no_glyphs(s),
        find_char(s, '%') >= 0,
    ensures
        no_glyphs(pct_step(s)),
{
    lemma_find_char_props(s, '%');
    let p = find_char(s, '%');
    let st = back_scan(s, p);
    lemma_back_scan_props(s, p);
    let r = pct_step(s);
    if st == p {
        assert forall|i: int| 0 <= i < r.len() implies glyph_spec(#[trigger] r[i]) == r[i] by {
            if i < p {
                assert(r[i] == s[i]);
            } else {
                assert(r[i] == s[i + 1]);
            }
        }
    } else {
        assert forall|i: int| 0 <= i < r.len() implies glyph_spec(#[trigger] r[i]) == r[i] by {
            if i < st {
                assert(r[i] == s[i]);
            } else if i == st {
                assert(r[i] == '(');
            } else if i < p + 1 {
                assert(r[i] == s[i - 1]);
            } else if i < p + 6 {
                assert(r[i] == seq!['/', '1', '0', '0', ')'][i - p - 1]);
            } else {
                assert(r[i] == s[i - 5]);
            }
        }
    }
}

/// Percent expansion does nothing to a string without percent signs.
proof fn lemma_pct_expand_id(s: Seq<char>)
    requires
        find_char(s, '%') < 0,
    ensures
        pct_expand(s) == s,
{
}

} // verus!

verus! {

/// A character allowed in an exact-integer expression.
pub open spec fn allowed_int_char(c: char) -> bool {
    is_digit_char(c) || c == '+' || c == '-' || c == ' ' || c == '*'
}

/// A minus at `i` used as a binary operator: it follows a digit or a
/// space, so it is not a leading sign.
pub open spec fn binary_minus_at(n: Seq<char>, i: int) -> bool {
    1 <= i < n.len() && n[i] == '-' && (is_digit_char(n[i - 1]) || n[i - 1] == ' ')
}

/// The expression contains additive operators: a plus, or a binary
/// minus.
pub open spec fn has_addsub(n: Seq<char>) -> bool {
    contains_char(n, '+') || (exists|i: int| binary_minus_at(n, i))
}

/// Eligible for the exact-integer path: only digits, additive and
/// multiplicative operators and spaces, and no mixing of additive with
/// multiplicative operators, so that left-to-right evaluation cannot
/// disagree with operator precedence.
pub open spec fn int_op_spec(n: Seq<char>) -> bool {
    (forall|i: int| 0 <= i < n.len() ==> allowed_int_char(#[trigger] n[i]))
        && !(has_addsub(n) && contains_char(n, '*'))
}

impl Expression {
    /// Check whether the expression is an integer operation that the
    /// exact-integer path can evaluate safely.
    pub fn is_integer_operation(&self) -> (r: bool)
        ensures
            r == int_op_spec(normalize_spec(self@)),
    {
        let norm = self.normalize();
        let v = str_to_chars(norm.as_str());
        let n = v.len();
        let mut ok = true;
        let mut plus = false;
        let mut star = false;
        let mut bminus = false;
        let mut i: usize = 0;
        while i < n
            invariant
                n == v@.len(),
                0 <= i <= n,
                ok == (forall|j: int| 0 <= j < i ==> allowed_int_char(#[trigger] v@[j])),
                plus == (exists|j: int| 0 <= j < i && v@[j] == '+'),
                star == (exists|j: int| 0 <= j < i && v@[j] == '*'),
                bminus == (exists|j: int| 0 <= j < i && binary_minus_at(v@, j)),
            decreases n - i,
        {
            let c = v[i];
            let dig = char_is_digit(c);
            if !(dig || c == '+' || c == '-' || c == ' ' || c == '*') {
                ok = false;
            }
            if c == '+' {
                plus = true;
            }
            if c == '*' {
                star = true;
            }
            if c == '-' && i > 0 {
                let prev = v[i - 1];
                if char_is_digit(prev) || prev == ' ' {
                    proof {
                        assert(binary_minus_at(v@, i as int));
                    }
                    bminus = true;
                }
            }
            proof {
                if !(allowed_int_char(v@[i as int])) {
                    assert(!ok);
                }
            }
            i = i + 1;
        }
        proof {
            assert(plus == contains_char(v@, '+'));
            assert(star == contains_char(v@, '*'));
            assert(bminus == (exists|j: int| binary_minus_at(v@, j))) by {
                if exists|j: int| binary_minus_at(v@, j) {
                    let j = choose|j: int| binary_minus_at(v@, j);
                    assert(0 <= j < n && binary_minus_at(v@, j));
                }
            }
        }
        ok && !((plus || bminus) && star)
    }
}

} // verus!

verus! {

/// Leading spaces removed.
pub open spec fn trim_front(s: Seq<char>) -> Seq<char>
    decreases s.len(),
{
    if s.len() > 0 && s[0] == ' ' {
        trim_front(s.skip(1))
    } else {
        s
    }
}

/// Trailing spaces removed.
pub open spec fn trim_back(s: Seq<char>) -> Seq<char>
    decreases s.len(),
{
    if s.len() > 0 && s.last() == ' ' {
        trim_back(s.drop_last())
    } else {
        s
    }
}

/// Surrounding spaces removed.
pub open spec fn trim_spaces(s: Seq<char>) -> Seq<char> {
    trim_back(trim_front(s))
}

/// Remove surrounding spaces.
pub fn trim_spaces_exec(v: &Vec<char>) -> (r: Vec<char>)
    ensures
        r@ == trim_spaces(v@),
{
    let n = v.len();
    let mut st: usize = 0;
    proof {
        assert(v@.skip(0) =~= v@);
    }
    while st < n && v[st] == ' '
        invariant
            n == v@.len(),
            0 <= st <= n,
            trim_front(v@) == trim_front(v@.skip(st as int)),
        decreases n - st,
    {
        proof {
            let t = v@.skip(st as int);
            assert(t[0] == v@[st as int]);
            assert(t.skip(1) =~= v@.skip(st + 1));
        }
        st = st + 1;
    }
    proof {
        let t = v@.skip(st as int);
        if st < n {
            assert(t[0] == v@[st as int]);
        }
        assert(trim_front(t) == t);
    }
    let mut en: usize = n;
    proof {
        assert(v@.subrange(st as int, en as int) =~= v@.skip(st as int));
    }
    while en > st && v[en - 1] == ' '
        invariant
            st <= en <= n == v@.len(),
            trim_back(v@.skip(st as int)) == trim_back(v@.subrange(st as int, en as int)),
        decreases en,
    {
        proof {
            let t = v@.subrange(st as int, en as int);
            assert(t.last() == v@[en - 1]);
            assert(t.drop_last() =~= v@.subrange(st as int, en - 1));
        }
        en = en - 1;
    }
    proof {
        let t = v@.subrange(st as int, en as int);
        if en > st {
            assert(t.last() == v@[en - 1]);
        }
        assert(trim_back(t) == t);
    }
    copy_range(v, st, en)
}

/// The segments of `s` between `/` characters, in order; without a `/`
/// the whole string is the single segment.
pub open spec fn split_slash(s: Seq<char>) -> Seq<Seq<char>>
    decreases s.len(),
    via split_slash_dec
{
    let p = find_char(s, '/');
    if p < 0 {
        seq![s]
    } else {
        seq![s.take(p)] + split_slash(s.skip(p + 1))
    }
}

#[via_fn]
proof fn split_slash_dec(s: Seq<char>) {
    lemma_find_char_props(s, '/');
}

/// Prefix the first segment of a split with `pre`.
pub open spec fn prepend_first(pre: Seq<char>, segs: Seq<Seq<char>>) -> Seq<Seq<char>> {
    seq![pre + segs[0]] + segs.skip(1)
}

proof fn lemma_split_len(s: Seq<char>)
    ensures
        split_slash(s).len() >= 1,
{
    lemma_find_char_props(s, '/');
}

/// Walking one non-slash character into the pending segment keeps the
/// split unchanged.
proof fn lemma_split_cons(pre: Seq<char>, t: Seq<char>)
    requires
        t.len() > 0,
        t[0] != '/',
    ensures
        prepend_first(pre, split_slash(t)) == prepend_first(pre.push(t[0]), split_slash(t.skip(1))),
{
    lemma_find_char_props(t, '/');
    lemma_find_char_props(t.skip(1), '/');
    lemma_split_len(t);
    lemma_split_len(t.skip(1));
    let f = find_char(t, '/');
    let f1 = find_char(t.skip(1), '/');
    assert(f == if f1 < 0 { -1int } else { f1 + 1 });
    if f < 0 {
        assert(pre + t =~= pre.push(t[0]) + t.skip(1));
        assert(prepend_first(pre, split_slash(t)) =~= prepend_first(
            pre.push(t[0]), split_slash(t.skip(1))));
    } else {
        assert(pre + t.take(f) =~= pre.push(t[0]) + t.skip(1).take(f1));
        assert(t.skip(f + 1) =~= t.skip(1).skip(f1 + 1));
        assert(prepend_first(pre, split_slash(t)) =~= prepend_first(
            pre.push(t[0]), split_slash(t.skip(1))));
    }
}

/// A slash closes the pending segment.
proof fn lemma_split_slash_char(pre: Seq<char>, t: Seq<char>)
    requires
        t.len() > 0,
        t[0] == '/',
    ensures
        prepend_first(pre, split_slash(t)) == seq![pre] + split_slash(t.skip(1)),
{
    lemma_find_char_props(t, '/');
    lemma_split_len(t.skip(1));
    assert(find_char(t, '/') == 0);
    assert(t.take(0) =~= Seq::<char>::empty());
    assert(pre + t.take(0) =~= pre);
    assert(prepend_first(pre, split_slash(t)) =~= seq![pre] + split_slash(t.skip(1)));
}

/// Prefixing the empty segment changes nothing.
proof fn lemma_prepend_empty(segs: Seq<Seq<char>>)
    requires
        segs.len() >= 1,
    ensures
        prepend_first(Seq::empty(), segs) == segs,
{
    assert(Seq::<char>::empty() + segs[0] =~= segs[0]);
    assert(prepend_first(Seq::empty(), segs) =~= segs);
}

/// Split on `/` characters.
pub fn split_slash_exec(v: &Vec<char>) -> (r: Vec<Vec<char>>)
    ensures
        r@.len() == split_slash(v@).len(),
        forall|k: int| 0 <= k < r@.len() ==> #[trigger] r@[k]@ == split_slash(v@)[k],
{
    let n = v.len();
    let mut done: Vec<Vec<char>> = Vec::new();
    let mut cur: Vec<char> = Vec::new();
    let ghost mut dv: Seq<Seq<char>> = Seq::empty();
    let mut i: usize = 0;
    proof {
        assert(v@.skip(0) =~= v@);
        lemma_split_len(v@);
        assert(dv + prepend_first(cur@, split_slash(v@.skip(0))) =~= prepend_first(
            cur@, split_slash(v@)));
    }
    while i < n
        invariant
            n == v@.len(),
            0 <= i <= n,
            dv.len() == done@.len(),
            forall|k: int| 0 <= k < dv.len() ==> dv[k] == #[trigger] done@[k]@,
            split_slash(v@) == dv + prepend_first(cur@, split_slash(v@.skip(i as int))),
        decreases n - i,
    {
        let ghost t = v@.skip(i as int);
        let ghost oldcur = cur@;
        proof {
            assert(t[0] == v@[i as int]);
            assert(t.skip(1) =~= v@.skip(i + 1));
            lemma_split_len(t);
            lemma_split_len(t.skip(1));
        }
        let c = v[i];
        if c == '/' {
            proof {
                lemma_split_slash_char(oldcur, t);
            }
            done.push(cur);
            cur = Vec::new();
            proof {
                dv = dv.push(oldcur);
                assert(cur@ =~= Seq::<char>::empty());
                lemma_prepend_empty(split_slash(v@.skip(i + 1)));
                assert(dv.drop_last() + (seq![oldcur] + split_slash(t.skip(1)))
                    =~= dv + split_slash(v@.skip(i + 1)));
            }
        } else {
            proof {
                lemma_split_cons(oldcur, t);
            }
            cur.push(c);
        }
        i = i + 1;
    }
    proof {
        let t = v@.skip(n as int);
        assert(t =~= Seq::<char>::empty());
        lemma_find_char_props(t, '/');
        assert(split_slash(t) =~= seq![Seq::<char>::empty()]);
        assert(cur@ + Seq::<char>::empty() =~= cur@);
        assert(prepend_first(cur@, split_slash(t)) =~= seq![cur@]);
        assert(dv + seq![cur@] =~= dv.push(cur@));
    }
    done.push(cur);
    done
}

} // verus!

verus! {

/// The user-visible message for a zero divisor.
pub open spec fn msg_div_zero() -> Seq<char> {
    "Cannot divide by zero"@
}

/// The user-visible message for any other failure.
pub open spec fn msg_error() -> Seq<char> {
    "Error"@
}

/// A character a zero-valued divisor expression may consist of.
pub open spec fn zeroish_char(c: char) -> bool {
    is_digit_char(c) || c == ' ' || c == '+' || c == '-' || c == '*'
}

/// A trimmed divisor segment that counts as a zero divisor: empty (a
/// dangling slash), exactly `0`, a leading zero followed by another
/// digit, or a digit-and-operator expression that the generic evaluator
/// takes to exactly zero.
pub open spec fn zero_seg(p: Seq<char>) -> bool {
    p.len() == 0
        || (p.len() == 1 && p[0] == '0')
        || (p.len() >= 2 && p[0] == '0' && is_digit_char(p[1]))
        || ((forall|i: int| 0 <= i < p.len() ==> zeroish_char(#[trigger] p[i]))
            && (exists|i: int| 0 <= i < p.len() && is_digit_char(#[trigger] p[i]))
            && (meval_display(p) == Some("0"@) || meval_display(p) == Some("-0"@)))
}

/// A zero divisor somewhere: some segment after the first `/`, trimmed,
/// is a zero divisor.
pub open spec fn dbz_spec(n: Seq<char>) -> bool {
    exists|k: int| 1 <= k < split_slash(n).len()
        && zero_seg(trim_spaces(#[trigger] split_slash(n)[k]))
}

impl Expression {
    /// Check whether the expression divides by zero, as far as the
    /// lexical patterns and the generic evaluator can tell before any
    /// evaluation.
    pub fn has_division_by_zero(&self) -> (r: bool)
        ensures
            r == dbz_spec(normalize_spec(self@)),
    {
        let norm = self.normalize();
        let v = str_to_chars(norm.as_str());
        let ghost nseq = normalize_spec(self@);
        let segs = split_slash_exec(&v);
        let m = segs.len();
        let mut k: usize = 1;
        while k < m
            invariant
                nseq == normalize_spec(self@),
                m == segs@.len() == split_slash(nseq).len(),
                forall|j: int| 0 <= j < m ==> #[trigger] segs@[j]@ == split_slash(nseq)[j],
                1 <= k <= m || m < 1,
                forall|j: int| 1 <= j < k ==> !zero_seg(trim_spaces(
                    #[trigger] split_slash(nseq)[j])),
            decreases m - k,
        {
            let part = trim_spaces_exec(&segs[k]);
            proof {
                assert(part@ == trim_spaces(split_slash(nseq)[k as int]));
            }
            if seg_is_zero(&part) {
                proof {
                    assert(zero_seg(trim_spaces(split_slash(nseq)[k as int])));
                    assert(dbz_spec(nseq));
                }
                return true;
            }
            k = k + 1;
        }
        false
    }
}

/// Decide whether a trimmed divisor segment is a zero divisor.
fn seg_is_zero(p: &Vec<char>) -> (r: bool)
    ensures
        r == zero_seg(p@),
{
    let n = p.len();
    if n == 0 {
        return true;
    }
    if n == 1 && p[0] == '0' {
        return true;
    }
    if n >= 2 && p[0] == '0' && char_is_digit(p[1]) {
        return true;
    }
    // all characters digits or operators, with at least one digit
    let mut zeroish = true;
    let mut has_digit = false;
    let mut i: usize = 0;
    while i < n
        invariant
            n == p@.len(),
            0 <= i <= n,
            zeroish == (forall|j: int| 0 <= j < i ==> zeroish_char(#[trigger] p@[j])),
            has_digit == (exists|j: int| 0 <= j < i && is_digit_char(#[trigger] p@[j])),
        decreases n - i,
    {
        let c = p[i];
        let dig = char_is_digit(c);
        if !(dig || c == ' ' || c == '+' || c == '-' || c == '*') {
            zeroish = false;
        }
        if dig {
            proof {
                assert(is_digit_char(p@[i as int]));
            }
            has_digit = true;
        }
        proof {
            if !zeroish_char(p@[i as int]) {
                assert(!zeroish);
            }
        }
        i = i + 1;
    }
    if !(zeroish && has_digit) {
        return false;
    }
    // ask the generic evaluator whether the segment is exactly zero
    let text = chars_to_string(p);
    match eval_display(text.as_str()) {
        Option::Some(ds) => {
            let z = String::from_str("0");
            let mz = String::from_str("-0");
            proof {
                assert(z@ == "0"@);
                assert(mz@ == "-0"@);
            }
            ds.eq(&z) || ds.eq(&mz)
        },
        Option::None => false,
    }
}

} // verus!

verus! {

/// Result type that can be either a floating point value (kept as its
/// exact finite decimal) or a big integer (kept as its decimal string).
pub enum CalculationResult {
    Float(Decimal),
    BigInt(String),
}

/// Mathematical model of a calculation result.
pub enum CalcValue {
    Float(DecimalView),
    BigInt(Seq<char>),
}

impl View for CalculationResult {
    type V = CalcValue;

    open spec fn view(&self) -> CalcValue {
        match self {
            CalculationResult::Float(d) => CalcValue::Float(d@),
            CalculationResult::BigInt(s) => CalcValue::BigInt(s@),
        }
    }
}

/// Well-formedness of a result value.
pub open spec fn calc_value_wf(v: CalcValue) -> bool {
    match v {
        CalcValue::Float(dv) => dec_wf(dv),
        CalcValue::BigInt(_) => true,
    }
}

/// The display string of a result: the big-integer decimal string
/// verbatim, a float value formatted free of artifacts.
pub open spec fn display_spec(v: CalcValue) -> Seq<char> {
    match v {
        CalcValue::Float(dv) => float_display_spec(dv),
        CalcValue::BigInt(s) => s,
    }
}

impl CalculationResult {
    /// Format the result for display.
    pub fn display_string(&self) -> (r: String)
        requires
            calc_value_wf(self@),
        ensures
            r@ == display_spec(self@),
    {
        match self {
            CalculationResult::Float(d) => format_decimal(d),
            CalculationResult::BigInt(s) => s.clone(),
        }
    }
}

/// The outcome of `calculate`, as a mathematical value.
pub open spec fn result_view(r: &Result<CalculationResult, String>) -> Result<CalcValue, Seq<char>> {
    match r {
        Result::Ok(c) => Result::Ok(c@),
        Result::Err(m) => Result::Err(m@),
    }
}

/// Trait that defines an expression calculator.
pub trait Calculator {
    /// Calculate the result of an expression.
    fn calculate(&self, expression: &Expression) -> (r: Result<CalculationResult, String>)
        ensures
            result_view(&r) == crate::infrastructure::calculate_spec(expression@),
    ;
}

} // verus!
