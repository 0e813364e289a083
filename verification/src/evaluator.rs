//! The generic expression evaluator, a black box to this library.
//!
//! The evaluator takes a normalized expression string and returns a
//! 64-bit float or fails; this library only ever looks at that float
//! through its display string, so the wrapper hands the outcome back as
//! the text that `Display` produces for it (`"inf"`, `"-inf"` and
//! `"NaN"` for the non-finite values, a plain decimal numeral
//! otherwise).

use vstd::prelude::*;

verus! {

/// What the generic evaluator answers on a given expression: `None`
/// when it fails to parse or evaluate, otherwise the display string of
/// the returned float.  The answer depends on the expression characters
/// alone.
pub uninterp spec fn meval_display(s: Seq<char>) -> Option<Seq<char>>;

/// Relies on `meval::eval_str`, which parses and evaluates an
/// expression string to an `f64` with standard precedence, and on the
/// standard `Display` for `f64`, which renders the value as a plain
/// decimal numeral (`"inf"`, `"-inf"`, `"NaN"` when non-finite; the
/// value zero as `"0"` or `"-0"`).
#[verifier::external_body]
pub fn eval_display(s: &str) -> (r: Option<String>)
    ensures
        (r is Some) == (meval_display(s@) is Some),
        r matches Some(t) ==> meval_display(s@) == Some(t@),
{
    match meval::eval_str(s) {
        Ok(v) => Some(format!("{}", v)),
        Err(_) => None,
    }
}

} // verus!
