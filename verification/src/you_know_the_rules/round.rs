//! One round of the game: the player's expression against the puzzle.

use super::generator::Puzzle;
use super::resolver::{deparenthesizer, resolution, ResolveError, ResolveFailure};
use vstd::prelude::*;

verus! {

/// What the player's expression comes to.
#[derive(Debug, PartialEq, Eq)]
pub enum Verdict {
    /// It has the value that the puzzle asks for.
    Victory,
    /// It has the value given here, which is another.
    Miss(i64),
    /// It has no value.
    Invalid(ResolveError),
}

/// A `Verdict` with its text as a sequence.
pub enum VerdictView {
    Victory,
    Miss(int),
    Invalid(ResolveFailure),
}

impl View for Verdict {
    type V = VerdictView;

    open spec fn view(&self) -> VerdictView {
        match self {
            Verdict::Victory => VerdictView::Victory,
            Verdict::Miss(value) => VerdictView::Miss(*value as int),
            Verdict::Invalid(error) => VerdictView::Invalid(error@),
        }
    }
}

/// The verdict on `attempt` where `answer` is asked for: only the value of
/// the attempt counts, not the digits that it uses.
pub open spec fn verdict_on(answer: int, attempt: Seq<char>) -> VerdictView {
    match resolution(attempt) {
        Ok(value) => if value == answer {
            VerdictView::Victory
        } else {
            VerdictView::Miss(value)
        },
        Err(failure) => VerdictView::Invalid(failure),
    }
}

/// Judges the player's expression.
pub fn judge(puzzle: &Puzzle, attempt: &String) -> (verdict: Verdict)
    ensures
        verdict@ == verdict_on(puzzle.answer as int, attempt@),
{
    match deparenthesizer(attempt) {
        Ok(value) => if value == puzzle.answer {
            Verdict::Victory
        } else {
            Verdict::Miss(value)
        },
        Err(error) => Verdict::Invalid(error),
    }
}

} // verus!
