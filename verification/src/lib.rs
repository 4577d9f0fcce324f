//! A linear programming library.
//!
//! Linear programs are formulated on a [`Model`](model::Model) and solved by the tabular
//! two-phase simplex method, over any number type that implements
//! [`Scalar`](scalar::Scalar). The steps of the method are specified over the real numbers
//! in [`tableau`] and [`phases`] and carried out in [`solver`]; [`soundness`] proves what
//! a solve means for the program that was solved, from what [`points`] and [`basis`] prove
//! of the points that satisfy a tableau. [`rational`] holds exact rational
//! numbers of any size, built on the natural numbers of [`natural`].
//!
//! This library does not (yet) support mixed integer programming.

pub mod basis;
pub mod linear;
pub mod model;
pub mod natural;
pub mod phases;
pub mod points;
pub mod rational;
pub mod scalar;
pub mod solver;
pub mod soundness;
pub mod tableau;

pub use model::{Model, ModelError, Objective, Operator, State, Summand, Var};
pub use scalar::Scalar;
pub use solver::{Optimum, SolveError};
