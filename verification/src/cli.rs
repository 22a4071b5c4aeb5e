//! The command-line verbs, as plain data.
//!
//! Argument parsing itself lives outside the library; a front end builds an
//! [`Opt`] value and dispatches on it.

use vstd::prelude::*;

verus! {

/// One requested operation, with its flags.
#[derive(Debug)]
pub enum Opt {
    /// Get the status of migrations (applied, unapplied, mismatched).
    Status { debug: bool },
    /// Apply unapplied migrations.
    Up { number: Option<usize>, show_plan: bool, debug: bool },
    /// Revert migrations from the top of the history.
    Down { number: Option<usize>, show_plan: bool, ignore_divergent: bool, debug: bool },
    /// Reconcile divergent and variant migrations.
    Fix { show_plan: bool, debug: bool },
    /// Revert and re-apply the top of the history.
    Redo { number: Option<usize>, show_plan: bool, debug: bool },
    /// Run a user-supplied plan.
    Custom { show_plan: bool, plan: Vec<String>, debug: bool },
    /// Generate a migration with a given name.
    Generate { name: String, debug: bool },
    /// Initialize the database and the local migration directory.
    Init { debug: bool },
}

} // verus!
