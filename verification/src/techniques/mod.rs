pub mod clue_cases;
pub mod lamp_conflict;
pub mod only_source;
pub mod source_cases;

use vstd::prelude::*;

pub use clue_cases::clue_case_analysis;
pub use lamp_conflict::place_breaks;
pub use only_source::unique_source;
pub use source_cases::source_case_analysis;

verus! {

/// The outcome of a deduction step: it decided something, it found
/// nothing new, or it met a contradiction.
#[derive(Debug, Clone, Copy, PartialEq, Eq, Structural)]
pub enum Status {
    Completed,
    Stopped,
    Broken,
}

} // verus!
