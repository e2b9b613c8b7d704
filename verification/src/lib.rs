//! A front end that translates C programs to circuits.
//!
//! The library takes the syntax tree of a program and builds the circuit that the program computes,
//! with its inputs, the parties that know them, and its outputs. Functions are translated where
//! they are called, loops are unrolled, and branches become conditions on every assignment.
//!
//! [`front`] is the entry. [`gen`] walks over the program and [`circ`] keeps the circuit under
//! construction. [`translate`] says what the translation of each construct is, and [`laws`] and
//! [`wellformed`] state what holds of the whole.
//!
//! What a translation means is stated apart from how it is made. [`values`] says in plain arithmetic
//! what operators and conversions compute, and [`runs`] what statements do, step by step, on numbers
//! and truth values; the circuit means just that. [`total`] shows which programs are translated, and
//! [`whole`] what the circuit of a program computes. [`flow`] states what runs and what it sees,
//! [`data`] what inputs, arrays and outputs hold, [`cells`] what expressions read and write,
//! [`folds`] which expressions are constants, and [`shapes`] what declarations declare.
pub mod ast;
pub mod ast_utils;
pub mod cells;
pub mod circ;
pub mod cterm;
pub mod data;
pub mod error;
pub mod flow;
pub mod folds;
pub mod front;
pub mod gen;
pub mod ir;
pub mod kept;
pub mod laws;
pub mod list;
pub mod number;
pub mod places;
pub mod runs;
pub mod shapes;
pub mod single;
pub mod steps;
pub mod table;
pub mod total;
pub mod translate;
pub mod types;
pub mod values;
pub mod wellformed;
pub mod whole;
