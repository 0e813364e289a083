//! The boundary consumed by a user interface: one entry point from an
//! expression string to a display string or a user-visible error.

use vstd::prelude::*;
use crate::infrastructure::MevalCalculator;
use crate::usecases::{CalculateExpressionUseCase, final_display, strres_view};

verus! {

/// Calculate the result of a mathematical expression: the display
/// string on success, `"Cannot divide by zero"` or `"Error"` on
/// failure.
pub fn calculate_result(expression: String) -> (r: Result<String, String>)
    ensures
        strres_view(&r) == final_display(expression@),
{
    let calculator = MevalCalculator;
    let use_case = CalculateExpressionUseCase::new(calculator);
    use_case.execute(expression)
}

} // verus!
