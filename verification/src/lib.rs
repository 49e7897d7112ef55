//! A line-oriented scripting engine for menu-driven text dialogues.
//!
//! A script is a set of named modules, each an ordered list of instructions:
//! write text, read input, branch on a regular expression, jump, save the
//! input, evaluate an assignment, or exit. [`instruction`] parses the text of
//! a script; [`execute`] runs it as a state machine that never reads or
//! writes by itself: it tells the host what to print and when to read.
//!
//! Errors are values. A host that wants to stop at the first error and one
//! that wants to report it and live on both get what they need from
//! [`execute::execute_module`]; [`execute::execute_script`], which runs a
//! whole dialogue on recorded input, takes the choice as a
//! [`execute::FailurePolicy`].

pub mod execute;
pub mod instruction;
pub mod number;
pub mod pattern;
pub mod script_text;
pub mod text;
pub mod writing;
