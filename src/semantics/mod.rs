//! Checks on the syntax tree before code generation.
pub mod check_labels;
