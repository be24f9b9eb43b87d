//! A proof checker for a pure type system with definitions.
//!
//! Expressions ([`model`], read by [`parse`]) are compared up to
//! α-equivalence through their de Bruijn form ([`de_bruijn`]); contexts and
//! definition lists are stored in hash-consed prefix trees ([`in_tree`]);
//! [`rule`] holds one operation per inference rule, and [`script`] drives
//! them from a line-oriented script, reporting failures as [`error`]s.
//!
//! Choices this library makes:
//! - Expressions that a premise says are the same are compared up to
//!   α-equivalence.
//! - `appl` requires the argument's type to be the domain of the function's
//!   Π-type, and `abst` requires the body's type to be the body of the
//!   Π-type, both up to α-equivalence; the argument types of `inst` are not
//!   compared with the parameters.
//! - Positions in a context or a definition list (`sp J k`,
//!   `inst … d`) count from 1 at the binding nearest the root.
//! - Fresh names are single letters. Where every letter is taken, a binder
//!   keeps its name; substitution is exact up to α wherever the letters
//!   suffice (see [`de_bruijn::fits`]).
pub mod de_bruijn;
pub mod error;
pub mod in_tree;
pub mod model;
pub mod parse;
pub mod rule;
pub mod script;

pub use model::{Application, Asterisk, Definition, Expr, Lambda, Pi, Square, Var};
pub use parse::take_expr;
