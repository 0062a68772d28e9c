//! Match Timer resolution: when the deferred timer for a room fires, it
//! reads the Match's scores, computes the outcome, and hands back the finish
//! frame for each seat. The Match may already be gone by then — the firing
//! is then a no-op.

use vstd::prelude::*;
use crate::codec::{finish_frame, finish_msg};
use crate::outcome::{compute_outcome, outcome_of};
use crate::registry::Registry;
use crate::ROOM_COUNT;

verus! {

/// What a fired Match Timer wants delivered.
pub struct TimerResolution {
    /// Finish frame for seat 1.
    pub seat1_msg: Vec<u8>,
    /// Finish frame for seat 2.
    pub seat2_msg: Vec<u8>,
    /// Whether each seat's outbox is still attached.
    pub seat1_present: bool,
    pub seat2_present: bool,
}

/// The fire-once resolution of a room's Match Timer: for a live Match, the
/// two finish frames under the strict-comparison outcome of the current
/// scores; for a room whose Match is already gone, nothing.
pub fn timer_fire(reg: &Registry, room: usize) -> (r: Option<TimerResolution>)
    requires
        reg.wf(),
        room < ROOM_COUNT,
    ensures
        match reg@[room as int] {
            None => r is None,
            Some(m) => r matches Some(t)
                && t.seat1_msg@ == finish_frame(outcome_of(m.pts1, m.pts2).0)
                && t.seat2_msg@ == finish_frame(outcome_of(m.pts1, m.pts2).1)
                && t.seat1_present == m.seat1
                && t.seat2_present == m.seat2,
        },
{
    match reg.scores(room) {
        None => None,
        Some((pts1, pts2)) => {
            let (o1, o2) = compute_outcome(pts1, pts2);
            Some(TimerResolution {
                seat1_msg: finish_msg(o1),
                seat2_msg: finish_msg(o2),
                seat1_present: reg.seat_present(room, 1),
                seat2_present: reg.seat_present(room, 2),
            })
        },
    }
}

} // verus!
