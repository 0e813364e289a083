//! Arithmetic core of a desktop calculator.
//!
//! Takes a user-typed expression string, normalizes it, decides how to
//! evaluate it (exact arbitrary-precision integers or generic floating
//! point), and renders the result as a display string free of
//! floating-point artifacts.

pub mod chars;
pub mod digits;
pub mod numfmt;
pub mod evaluator;
pub mod domain;
pub mod infrastructure;
pub mod usecases;
pub mod presentation;
