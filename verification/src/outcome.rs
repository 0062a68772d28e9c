//! Outcome of a finished round, computed from the two seats' scores.

use vstd::prelude::*;

verus! {

/// What one seat is told when the round ends.
#[derive(Clone, Copy, Debug, PartialEq, Eq, Structural)]
pub enum Outcome {
    /// This seat scored strictly higher than the opponent.
    Win,
    /// The opponent scored strictly higher.
    Loss,
    /// Both seats scored the same.
    Draw,
}

/// Outcome for each seat as a pure function of the two scores: the strictly
/// higher scorer wins, the other loses; equal scores draw for both.
pub open spec fn outcome_of(pts1: nat, pts2: nat) -> (Outcome, Outcome) {
    if pts1 > pts2 {
        (Outcome::Win, Outcome::Loss)
    } else if pts2 > pts1 {
        (Outcome::Loss, Outcome::Win)
    } else {
        (Outcome::Draw, Outcome::Draw)
    }
}

/// Computes each seat's outcome, exactly as `outcome_of` describes.
pub fn compute_outcome(pts1: usize, pts2: usize) -> (r: (Outcome, Outcome))
    ensures
        r == outcome_of(pts1 as nat, pts2 as nat),
        pts1 > pts2 ==> r == (Outcome::Win, Outcome::Loss),
        pts2 > pts1 ==> r == (Outcome::Loss, Outcome::Win),
        pts1 == pts2 ==> r == (Outcome::Draw, Outcome::Draw),
{
    if pts1 > pts2 {
        (Outcome::Win, Outcome::Loss)
    } else if pts2 > pts1 {
        (Outcome::Loss, Outcome::Win)
    } else {
        (Outcome::Draw, Outcome::Draw)
    }
}

} // verus!
