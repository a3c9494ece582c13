//! A linear-programming modeling layer: variables with bounds and
//! categories, affine expressions over them, relational constraints, and a
//! problem container that owns the model and serializes it in CPLEX LP text
//! form.
//!
//! All numeric quantities (bounds, coefficients, constants, solved values,
//! tolerances) are exact fixed-point numbers: an `i64` counting micro-units,
//! see [`fixnum`].
//!
//! An expression holds its own copies of the variable records it mentions:
//! a solved value written into a problem's variable list afterwards is not
//! seen by expressions built earlier.  Evaluation and validity read the
//! records the expression itself holds, so solved values belong in the
//! variables an expression is built from (or written into its stored
//! terms) before asking for them.
#![verifier::loop_isolation(false)]

pub mod constraint;
pub mod element;
pub mod error;
pub mod expression;
pub mod fixnum;
pub mod fraction;
pub mod lptext;
pub mod problem;
pub mod text;
pub mod variable;
