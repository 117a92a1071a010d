//! A boolean-formula engine.
//!
//! Formulas are written in postfix notation over the truth values `0` and
//! `1`, the variables `A` to `Z`, the connectives `&`, `|`, `^`, `>` and
//! `=`, and the negation marker `!` behind what it negates. They are parsed
//! into trees, printed, evaluated, and rewritten into negation normal form
//! and conjunctive normal form; truth tables give the meaning of a formula
//! and decide whether it can be satisfied.
//!
//! Every function states what it computes over the definitions of
//! [`formula`], [`evaluator`] and the module it belongs to, and the modules
//! prove what holds between them: that a tree is what its own text denotes,
//! that the normal forms have their shape and keep the meaning of a formula,
//! and that a truth table holds the truth value of the formula under the
//! assignment of each row.
//!
//! Parsing, printing, evaluation and the rewriting passes recurse to the
//! depth of the formula, and the conjunctive normal form of a formula can
//! be exponentially larger than the formula.
pub mod bits;
pub mod cnf;
pub mod evaluator;
pub mod formula;
pub mod nnf;
pub mod parser;
pub mod powerset;
pub mod printer;
pub mod random;
pub mod sat;
pub mod set_eval;
pub mod stack_eval;
pub mod truth_table;
pub mod walk;

pub use cnf::{cnf, conjunctive_normal_form};
pub use formula::{MyError, Node, Op, Oper};
pub use nnf::{negation_normal_form, nnf};
pub use sat::sat;
pub use set_eval::{checked_eval_set, eval_set, SetFormulaError};
pub use stack_eval::{checked_eval_formula, eval_formula, ParsingError};
pub use truth_table::{TruthTable, TruthTableEntriesIterator};
pub use walk::NodeIterator;
