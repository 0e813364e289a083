//! Use cases: the application rule that turns an expression string
//! into a display string.

use vstd::prelude::*;
use crate::domain::{Expression, Calculator, CalcValue, calc_value_wf, display_spec};
use crate::infrastructure::calculate_spec;
use crate::numfmt::{lemma_parse_spec_wf, lemma_round_spec_wf};
use crate::evaluator::meval_display;

verus! {

/// The display outcome of the whole calculation: the formatted result,
/// or one of the two user-visible error messages.
pub open spec fn final_display(raw: Seq<char>) -> Result<Seq<char>, Seq<char>> {
    match calculate_spec(raw) {
        Result::Ok(cv) => Result::Ok(display_spec(cv)),
        Result::Err(m) => Result::Err(m),
    }
}

/// The outcome of `execute` as a mathematical value.
pub open spec fn strres_view(r: &Result<String, String>) -> Result<Seq<char>, Seq<char>> {
    match r {
        Result::Ok(s) => Result::Ok(s@),
        Result::Err(m) => Result::Err(m@),
    }
}

/// Every successful calculation outcome is well formed: a float result
/// is a parsed, possibly corrected, finite decimal.
pub proof fn lemma_calculate_spec_wf(raw: Seq<char>)
    ensures
        calculate_spec(raw) matches Result::Ok(cv) ==> calc_value_wf(cv),
{
    let n = crate::domain::normalize_spec(raw);
    if calculate_spec(raw) is Ok {
        let cv = calculate_spec(raw)->Ok_0;
        if cv is Float {
            let ds = meval_display(n)->Some_0;
            lemma_parse_spec_wf(ds);
            lemma_round_spec_wf(crate::numfmt::parse_spec(ds));
        }
    }
}

/// Use case for calculating mathematical expressions.
pub struct CalculateExpressionUseCase<T: Calculator> {
    calculator: T,
}

impl<T: Calculator> CalculateExpressionUseCase<T> {
    /// Creates a new use case with the provided calculator.
    pub fn new(calculator: T) -> Self {
        Self { calculator }
    }

    /// Executes the calculation of the expression and returns the
    /// result as a display string.
    pub fn execute(&self, expression_str: String) -> (r: Result<String, String>)
        ensures
            strres_view(&r) == final_display(expression_str@),
    {
        let ghost raw = expression_str@;
        let expression = Expression::new(expression_str);
        match self.calculator.calculate(&expression) {
            Result::Ok(result) => {
                proof {
                    lemma_calculate_spec_wf(raw);
                }
                Ok(result.display_string())
            },
            Result::Err(err_msg) => Err(err_msg),
        }
    }
}

} // verus!
