//! The interactive backend boundary. The engine is verified for every
//! implementation of this trait: nothing is assumed about the answers a
//! backend returns, beyond the validation the engine itself performs.

use vstd::prelude::*;

use crate::questions::Confirm;
use crate::questions::Input;
use crate::questions::MultiSelect;
use crate::questions::Select;

verus! {

/// The pluggable interactive backend: rendering messages and prompts is its
/// business, and each operation may fail with a backend-specific message.
/// Implementations live outside the engine (a terminal front end, a scripted
/// stand-in for tests); the engine calls them one at a time, never
/// concurrently.
pub trait Environment {
    /// Shows an informational message.
    fn info(&self, message: &str) -> Result<(), String>;

    /// Shows an error message.
    fn error(&self, message: &str) -> Result<(), String>;

    /// Renders a yes/no prompt and returns the answer.
    fn confirm(&self, question: &Confirm) -> Result<bool, String>;

    /// Renders a text prompt and returns the text entered.
    fn input(&self, question: &Input) -> Result<String, String>;

    /// Renders a single-choice prompt and returns the index of the entry
    /// chosen. The engine rejects an out-of-range index.
    fn select(&self, question: &Select) -> Result<usize, String>;

    /// Renders a multiple-choice prompt and returns the indices of the
    /// entries chosen. The engine rejects an out-of-range index.
    fn multiselect(&self, question: &MultiSelect) -> Result<Vec<usize>, String>;
}

} // verus!
