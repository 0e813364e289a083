//! Technical implementations: the exact-integer evaluator built on the
//! arbitrary-precision integer crate, and the calculator that composes
//! normalization, the checks and the two evaluation paths.

use vstd::prelude::*;
use crate::chars::{
    is_digit_char, digits_ok, contains_char,
    char_is_digit, str_to_chars, chars_to_string, vec_contains_char,
};
use crate::digits::{
    digits_val, int_to_dec, nat_to_digits, lemma_nat_to_digits,
};
use crate::numfmt::{
    parse_spec, is_decimal_lit, parse_decimal, round_spec, round_float_result, is_all_zeros,
};
use crate::domain::{
    Expression, CalculationResult, CalcValue, Calculator, result_view,
    normalize_spec, dbz_spec, int_op_spec, msg_div_zero, msg_error,
};
use crate::evaluator::{meval_display, eval_display};

verus! {

/// The integer denoted by a decimal string with an optional minus
/// sign.
pub open spec fn dec_str_val(s: Seq<char>) -> int {
    if s.len() > 0 && s[0] == '-' {
        -digits_val(s.skip(1))
    } else {
        digits_val(s)
    }
}

/// A string the arbitrary-precision parser accepts: an optional minus
/// sign, then at least one digit.
pub open spec fn is_dec_str(s: Seq<char>) -> bool {
    if s.len() > 0 && s[0] == '-' {
        s.len() >= 2 && digits_ok(s.skip(1))
    } else {
        s.len() >= 1 && digits_ok(s)
    }
}

pub proof fn lemma_int_to_dec_ok(v: int)
    ensures
        is_dec_str(int_to_dec(v)),
        dec_str_val(int_to_dec(v)) == v,
{
    if v < 0 {
        lemma_nat_to_digits(-v);
        let s = seq!['-'] + nat_to_digits(-v);
        assert(int_to_dec(v) == s);
        assert(s[0] == '-');
        assert(s.skip(1) =~= nat_to_digits(-v));
    } else {
        lemma_nat_to_digits(v);
        let s = nat_to_digits(v);
        assert(s[0] != '-') by {
            assert(is_digit_char(s[0]));
        }
    }
}

/// Relies on `BigInt::from_str`, which parses an optionally signed
/// decimal string, and on the `Display` of `BigInt`, which renders the
/// canonical decimal string: the sum of the two inputs.
#[verifier::external_body]
fn big_add(a: &str, b: &str) -> (r: String)
    requires
        is_dec_str(a@),
        is_dec_str(b@),
    ensures
        r@ == int_to_dec(dec_str_val(a@) + dec_str_val(b@)),
{
    let x = <num_bigint::BigInt as core::str::FromStr>::from_str(a).unwrap();
    let y = <num_bigint::BigInt as core::str::FromStr>::from_str(b).unwrap();
    (x + y).to_string()
}

/// Relies on `BigInt::from_str` and the `Display` of `BigInt`: the
/// difference of the two inputs as a canonical decimal string.
#[verifier::external_body]
fn big_sub(a: &str, b: &str) -> (r: String)
    requires
        is_dec_str(a@),
        is_dec_str(b@),
    ensures
        r@ == int_to_dec(dec_str_val(a@) - dec_str_val(b@)),
{
    let x = <num_bigint::BigInt as core::str::FromStr>::from_str(a).unwrap();
    let y = <num_bigint::BigInt as core::str::FromStr>::from_str(b).unwrap();
    (x - y).to_string()
}

/// Relies on `BigInt::from_str` and the `Display` of `BigInt`: the
/// product of the two inputs as a canonical decimal string.
#[verifier::external_body]
fn big_mul(a: &str, b: &str) -> (r: String)
    requires
        is_dec_str(a@),
        is_dec_str(b@),
    ensures
        r@ == int_to_dec(dec_str_val(a@) * dec_str_val(b@)),
{
    let x = <num_bigint::BigInt as core::str::FromStr>::from_str(a).unwrap();
    let y = <num_bigint::BigInt as core::str::FromStr>::from_str(b).unwrap();
    (x * y).to_string()
}

/// A token of the exact-integer evaluator.
pub enum Token {
    Number(Vec<char>),
    Operator(char),
}

/// Mathematical model of a token.
pub enum TokenView {
    Number(Seq<char>),
    Operator(char),
}

impl View for Token {
    type V = TokenView;

    open spec fn view(&self) -> TokenView {
        match self {
            Token::Number(ds) => TokenView::Number(ds@),
            Token::Operator(c) => TokenView::Operator(*c),
        }
    }
}

/// A number token holds at least one digit.
pub open spec fn token_wf(t: TokenView) -> bool {
    match t {
        TokenView::Number(ds) => digits_ok(ds) && ds.len() >= 1,
        TokenView::Operator(c) => c == '+' || c == '-' || c == '*' || c == '/',
    }
}

/// Whitespace skipped by the tokenizer.
pub open spec fn is_space_char(c: char) -> bool {
    c == ' ' || c == '\t' || c == '\n' || c == '\r'
}

/// Errors of the exact-integer path.
#[derive(PartialEq, Eq, Structural, Clone, Copy, Debug)]
pub enum EvalError {
    DivideByZero,
    Malformed,
    Unsupported,
}

/// Tokenization from position `i` with the pending digit run `cur` and
/// the tokens found so far: digits accumulate, operators flush, spaces
/// are skipped, anything else fails.
pub open spec fn tokenize_from(
    s: Seq<char>,
    i: int,
    cur: Seq<char>,
    acc: Seq<TokenView>,
) -> Option<Seq<TokenView>>
    decreases s.len() - i,
{
    if i < 0 || i >= s.len() {
        if cur.len() == 0 {
            Some(acc)
        } else {
            Some(acc.push(TokenView::Number(cur)))
        }
    } else {
        let c = s[i];
        if is_digit_char(c) {
            tokenize_from(s, i + 1, cur.push(c), acc)
        } else if c == '+' || c == '-' || c == '*' || c == '/' {
            let acc2 = if cur.len() == 0 {
                acc
            } else {
                acc.push(TokenView::Number(cur))
            };
            tokenize_from(s, i + 1, Seq::empty(), acc2.push(TokenView::Operator(c)))
        } else if is_space_char(c) {
            tokenize_from(s, i + 1, cur, acc)
        } else {
            None
        }
    }
}

pub open spec fn tokenize_spec(s: Seq<char>) -> Option<Seq<TokenView>> {
    tokenize_from(s, 0, Seq::empty(), Seq::empty())
}

/// Left-to-right evaluation of `(operator, number)` pairs from
/// position `i` onto the accumulator: no precedence, division either a
/// zero-divisor error or unsupported, a missing or misplaced token
/// malformed.
pub open spec fn eval_from(toks: Seq<TokenView>, i: int, acc: int) -> Result<int, EvalError>
    decreases toks.len() - i,
{
    if i < 0 || i >= toks.len() {
        Ok(acc)
    } else {
        match toks[i] {
            TokenView::Number(_) => Err(EvalError::Malformed),
            TokenView::Operator(op) => {
                if i + 1 >= toks.len() {
                    Err(EvalError::Malformed)
                } else {
                    match toks[i + 1] {
                        TokenView::Operator(_) => Err(EvalError::Malformed),
                        TokenView::Number(ds) => {
                            if op == '+' {
                                eval_from(toks, i + 2, acc + digits_val(ds))
                            } else if op == '-' {
                                eval_from(toks, i + 2, acc - digits_val(ds))
                            } else if op == '*' {
                                eval_from(toks, i + 2, acc * digits_val(ds))
                            } else if op == '/' {
                                if digits_val(ds) == 0 {
                                    Err(EvalError::DivideByZero)
                                } else {
                                    Err(EvalError::Unsupported)
                                }
                            } else {
                                Err(EvalError::Unsupported)
                            }
                        },
                    }
                }
            },
        }
    }
}

/// The outcome of the exact-integer path on an expression string: a
/// lone number comes back verbatim, an evaluated expression as the
/// canonical decimal string of its exact value.
pub open spec fn bigint_spec(s: Seq<char>) -> Result<Seq<char>, EvalError> {
    match tokenize_spec(s) {
        Option::None => Err(EvalError::Malformed),
        Option::Some(toks) => {
            if toks.len() == 0 {
                Err(EvalError::Malformed)
            } else if toks.len() == 1 {
                match toks[0] {
                    TokenView::Number(ds) => Ok(ds),
                    TokenView::Operator(_) => Err(EvalError::Malformed),
                }
            } else {
                match toks[0] {
                    TokenView::Number(ds) => match eval_from(toks, 1, digits_val(ds)) {
                        Result::Ok(v) => Ok(int_to_dec(v)),
                        Result::Err(e) => Err(e),
                    },
                    TokenView::Operator(_) => Err(EvalError::Malformed),
                }
            }
        },
    }
}

/// The outcome of `calculate_with_bigint` as a mathematical value.
pub open spec fn bigres_view(r: &Result<String, EvalError>) -> Result<Seq<char>, EvalError> {
    match r {
        Result::Ok(s) => Result::Ok(s@),
        Result::Err(e) => Result::Err(*e),
    }
}

/// Calculate an integer expression exactly, with arbitrary precision.
pub fn calculate_with_bigint(expression: &str) -> (r: Result<String, EvalError>)
    ensures
        bigres_view(&r) == bigint_spec(expression@),
{
    let v = str_to_chars(expression);
    let n = v.len();
    let mut toks: Vec<Token> = Vec::new();
    let mut cur: Vec<char> = Vec::new();
    let ghost mut tv: Seq<TokenView> = Seq::empty();
    let mut i: usize = 0;
    while i < n
        invariant
            v@ == expression@,
            n == v@.len(),
            0 <= i <= n,
            tv.len() == toks@.len(),
            forall|k: int| 0 <= k < tv.len() ==> tv[k] == #[trigger] toks@[k]@,
            forall|k: int| 0 <= k < tv.len() ==> token_wf(#[trigger] tv[k]),
            digits_ok(cur@),
            tokenize_spec(v@) == tokenize_from(v@, i as int, cur@, tv),
        decreases n - i,
    {
        let c = v[i];
        let ghost oldcur = cur@;
        let ghost oldtv = tv;
        if char_is_digit(c) {
            cur.push(c);
            proof {
                assert(tokenize_from(v@, i as int, oldcur, oldtv)
                    == tokenize_from(v@, i + 1, oldcur.push(c), oldtv));
                assert(cur@ == oldcur.push(c));
            }
        } else if c == '+' || c == '-' || c == '*' || c == '/' {
            if cur.len() > 0 {
                proof {
                    tv = tv.push(TokenView::Number(cur@));
                }
                toks.push(Token::Number(cur));
                cur = Vec::new();
            }
            proof {
                tv = tv.push(TokenView::Operator(c));
            }
            toks.push(Token::Operator(c));
            proof {
                let acc2 = if oldcur.len() == 0 { oldtv } else {
                    oldtv.push(TokenView::Number(oldcur))
                };
                assert(tokenize_from(v@, i as int, oldcur, oldtv)
                    == tokenize_from(v@, i + 1, Seq::empty(), acc2.push(TokenView::Operator(c))));
                assert(tv == acc2.push(TokenView::Operator(c)));
                assert(cur@ =~= Seq::<char>::empty());
            }
        } else if c == ' ' || c == '\t' || c == '\n' || c == '\r' {
            // whitespace is skipped without closing the digit run
            proof {
                assert(is_space_char(v@[i as int]));
                assert(tokenize_from(v@, i as int, oldcur, oldtv)
                    == tokenize_from(v@, i + 1, oldcur, oldtv));
            }
        } else {
            proof {
                assert(!is_digit_char(v@[i as int]) && !is_space_char(v@[i as int]));
                assert(tokenize_from(v@, i as int, cur@, tv) is None);
                assert(bigint_spec(expression@) == Result::<Seq<char>, EvalError>::Err(
                    EvalError::Malformed));
            }
            return Err(EvalError::Malformed);
        }
        i = i + 1;
    }
    if cur.len() > 0 {
        proof {
            tv = tv.push(TokenView::Number(cur@));
        }
        toks.push(Token::Number(cur));
    }
    proof {
        assert(tokenize_spec(v@) == Some(tv));
    }
    let m = toks.len();
    if m == 0 {
        return Err(EvalError::Malformed);
    }
    if m == 1 {
        match &toks[0] {
            Token::Number(ds) => {
                proof {
                    assert(tv[0] == toks@[0]@);
                }
                return Ok(chars_to_string(ds));
            },
            Token::Operator(_) => {
                proof {
                    assert(tv[0] == toks@[0]@);
                }
                return Err(EvalError::Malformed);
            },
        }
    }
    let ghost v0 = match tv[0] {
        TokenView::Number(ds) => digits_val(ds),
        TokenView::Operator(_) => 0int,
    };
    let mut acc: String;
    match &toks[0] {
        Token::Number(ds) => {
            proof {
                assert(tv[0] == toks@[0]@);
            }
            acc = chars_to_string(ds);
        },
        Token::Operator(_) => {
            proof {
                assert(tv[0] == toks@[0]@);
            }
            return Err(EvalError::Malformed);
        },
    }
    let ghost mut accv = v0;
    proof {
        assert(tv[0] == toks@[0]@);
        assert(token_wf(tv[0]));
        assert(is_dec_str(acc@)) by {
            assert(is_digit_char(acc@[0]));
        }
        assert(dec_str_val(acc@) == accv);
    }
    let mut i: usize = 1;
    while i < m
        invariant
            v@ == expression@,
            tokenize_spec(v@) == Some(tv),
            m == toks@.len() == tv.len(),
            m >= 2,
            tv[0] is Number,
            (match tv[0] {
                TokenView::Number(ds) => digits_val(ds) == v0,
                TokenView::Operator(_) => false,
            }),
            forall|k: int| 0 <= k < tv.len() ==> tv[k] == #[trigger] toks@[k]@,
            forall|k: int| 0 <= k < tv.len() ==> token_wf(#[trigger] tv[k]),
            1 <= i,
            i % 2 == 1,
            is_dec_str(acc@),
            dec_str_val(acc@) == accv,
            i > 1 ==> acc@ == int_to_dec(accv),
            eval_from(tv, 1, v0) == eval_from(tv, i as int, accv),
        decreases m - i,
    {
        let op: char;
        match &toks[i] {
            Token::Operator(c) => {
                op = *c;
            },
            Token::Number(_) => {
                proof {
                    assert(tv[i as int] == toks@[i as int]@);
                    assert(eval_from(tv, i as int, accv) == Result::<int, EvalError>::Err(
                        EvalError::Malformed));
                }
                return Err(EvalError::Malformed);
            },
        }
        proof {
            assert(tv[i as int] == toks@[i as int]@);
        }
        if i + 1 >= m {
            proof {
                assert(eval_from(tv, i as int, accv) == Result::<int, EvalError>::Err(
                    EvalError::Malformed));
            }
            return Err(EvalError::Malformed);
        }
        let b: String;
        let bz: bool;
        match &toks[i + 1] {
            Token::Number(ds) => {
                proof {
                    assert(tv[i + 1] == toks@[i + 1]@);
                    assert(token_wf(tv[i + 1]));
                }
                b = chars_to_string(ds);
                bz = is_all_zeros(ds);
            },
            Token::Operator(_) => {
                proof {
                    assert(tv[i + 1] == toks@[i + 1]@);
                    assert(eval_from(tv, i as int, accv) == Result::<int, EvalError>::Err(
                        EvalError::Malformed));
                }
                return Err(EvalError::Malformed);
            },
        }
        let ghost dsv = match tv[i + 1] {
            TokenView::Number(ds) => ds,
            TokenView::Operator(_) => Seq::empty(),
        };
        proof {
            assert(b@ == dsv);
            assert(is_dec_str(b@)) by {
                assert(is_digit_char(b@[0]));
            }
            assert(dec_str_val(b@) == digits_val(dsv));
        }
        if op == '/' {
            if bz {
                return Err(EvalError::DivideByZero);
            } else {
                return Err(EvalError::Unsupported);
            }
        } else if op == '+' {
            acc = big_add(acc.as_str(), b.as_str());
            proof {
                accv = accv + digits_val(dsv);
                lemma_int_to_dec_ok(accv);
            }
        } else if op == '-' {
            acc = big_sub(acc.as_str(), b.as_str());
            proof {
                accv = accv - digits_val(dsv);
                lemma_int_to_dec_ok(accv);
            }
        } else if op == '*' {
            acc = big_mul(acc.as_str(), b.as_str());
            proof {
                accv = accv * digits_val(dsv);
                lemma_int_to_dec_ok(accv);
            }
        } else {
            return Err(EvalError::Unsupported);
        }
        i = i + 2;
    }
    Ok(acc)
}

} // verus!

verus! {

/// Detect if an expression involves decimal operations, which might
/// suffer from floating point precision issues.
pub fn has_decimal_operation(expression: &str) -> (r: bool)
    ensures
        r == contains_char(expression@, '.'),
{
    let v = str_to_chars(expression);
    vec_contains_char(&v, '.')
}

/// The float path on a normalized expression: the generic evaluator's
/// answer, a non-finite value turned into the zero-divisor error, a
/// finite one corrected when the expression works on decimals.
pub open spec fn float_spec(n: Seq<char>) -> Result<CalcValue, Seq<char>> {
    match meval_display(n) {
        Option::None => Err(msg_error()),
        Option::Some(ds) => {
            if ds == "inf"@ || ds == "-inf"@ || ds == "NaN"@ {
                Err(msg_div_zero())
            } else if is_decimal_lit(ds) {
                if contains_char(n, '.') {
                    Ok(CalcValue::Float(round_spec(parse_spec(ds))))
                } else {
                    Ok(CalcValue::Float(parse_spec(ds)))
                }
            } else {
                Err(msg_error())
            }
        },
    }
}

/// The whole calculation: normalize, reject a lexically detected zero
/// divisor, try the exact-integer path on eligible input (a genuine
/// zero divisor surfaces, any other failure falls back), else the
/// float path.
pub open spec fn calculate_spec(raw: Seq<char>) -> Result<CalcValue, Seq<char>> {
    let n = normalize_spec(raw);
    if dbz_spec(n) {
        Err(msg_div_zero())
    } else if int_op_spec(n) {
        match bigint_spec(n) {
            Result::Ok(s) => Ok(CalcValue::BigInt(s)),
            Result::Err(EvalError::DivideByZero) => Err(msg_div_zero()),
            Result::Err(_) => float_spec(n),
        }
    } else {
        float_spec(n)
    }
}

/// Run the generic evaluator on a normalized expression and build the
/// float result.
fn float_path(normalized: &str) -> (r: Result<CalculationResult, String>)
    ensures
        result_view(&r) == float_spec(normalized@),
{
    match eval_display(normalized) {
        Option::None => Err(String::from_str("Error")),
        Option::Some(ds) => {
            let inf_s = String::from_str("inf");
            let ninf_s = String::from_str("-inf");
            let nan_s = String::from_str("NaN");
            proof {
                assert(inf_s@ == "inf"@);
                assert(ninf_s@ == "-inf"@);
                assert(nan_s@ == "NaN"@);
            }
            if ds.eq(&inf_s) || ds.eq(&ninf_s) || ds.eq(&nan_s) {
                Err(String::from_str("Cannot divide by zero"))
            } else {
                let chars = str_to_chars(ds.as_str());
                match parse_decimal(&chars) {
                    Option::None => Err(String::from_str("Error")),
                    Option::Some(d) => {
                        if has_decimal_operation(normalized) {
                            Ok(CalculationResult::Float(round_float_result(&d)))
                        } else {
                            Ok(CalculationResult::Float(d))
                        }
                    },
                }
            }
        },
    }
}

/// Implementation of the calculator over the generic evaluator, with
/// the exact-integer path for eligible input.
pub struct MevalCalculator;

impl Calculator for MevalCalculator {
    fn calculate(&self, expression: &Expression) -> (r: Result<CalculationResult, String>) {
        if expression.has_division_by_zero() {
            return Err(String::from_str("Cannot divide by zero"));
        }
        let normalized = expression.normalize();
        if expression.is_integer_operation() {
            match calculate_with_bigint(normalized.as_str()) {
                Result::Ok(s) => {
                    return Ok(CalculationResult::BigInt(s));
                },
                Result::Err(EvalError::DivideByZero) => {
                    return Err(String::from_str("Cannot divide by zero"));
                },
                Result::Err(_) => {},
            }
        }
        float_path(normalized.as_str())
    }
}

} // verus!

verus! {

/// The exact-integer path is exact: when an expression tokenizes and
/// its tokens evaluate left to right to the value `v`, the path
/// returns the canonical decimal string of exactly `v`, however large.
pub proof fn lemma_integer_path_exact(s: Seq<char>, v: int)
    requires
        tokenize_spec(s) is Some,
        tokenize_spec(s)->Some_0.len() >= 2,
        tokenize_spec(s)->Some_0[0] is Number,
        eval_from(
            tokenize_spec(s)->Some_0,
            1,
            digits_val(tokenize_spec(s)->Some_0[0]->Number_0),
        ) == Result::<int, EvalError>::Ok(v),
    ensures
        bigint_spec(s) == Result::<Seq<char>, EvalError>::Ok(int_to_dec(v)),
        dec_str_val(int_to_dec(v)) == v,
{
    lemma_int_to_dec_ok(v);
}

/// On a zero-divisor-free expression that is eligible and whose
/// exact-integer evaluation succeeds, the calculation returns that
/// exact result.
pub proof fn lemma_calculate_integer_exact(raw: Seq<char>)
    requires
        !dbz_spec(normalize_spec(raw)),
        int_op_spec(normalize_spec(raw)),
        bigint_spec(normalize_spec(raw)) is Ok,
    ensures
        calculate_spec(raw) == Result::<CalcValue, Seq<char>>::Ok(
            CalcValue::BigInt(bigint_spec(normalize_spec(raw))->Ok_0)),
{
}

/// An expression classified integer-ineligible takes the float path;
/// and only an eligible expression can produce an exact-integer
/// result.
pub proof fn lemma_float_path_taken(raw: Seq<char>)
    ensures
        !dbz_spec(normalize_spec(raw)) && !int_op_spec(normalize_spec(raw))
            ==> calculate_spec(raw) == float_spec(normalize_spec(raw)),
        (calculate_spec(raw) matches Result::Ok(cv) && cv is BigInt)
            ==> int_op_spec(normalize_spec(raw)),
{
}

} // verus!
