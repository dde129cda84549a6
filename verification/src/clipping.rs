//! Which part of a segment survives clipping to a polygon's outline.
//!
//! The caller finds where the segment crosses the outline and whether each
//! end lies inside; the plan says what is kept.
use vstd::prelude::*;

verus! {

/// What clipping keeps of a segment.
#[derive(Clone, Copy, Debug, PartialEq, Eq, Structural)]
pub enum ClipPlan {
    /// Nothing: the segment lies outside.
    Nothing,
    /// The whole segment: it lies inside.
    Whole,
    /// From the segment's start to its one crossing.
    StartToCrossing,
    /// From the segment's one crossing to its end.
    CrossingToEnd,
    /// The pieces between consecutive crossings (and inside ends) whose
    /// midpoint lies inside.
    Pieces,
}

/// The plan for a segment with `crossings` crossings of the outline.
pub open spec fn plan_for(crossings: nat, start_inside: bool, end_inside: bool) -> ClipPlan {
    if crossings == 0 {
        if start_inside && end_inside { ClipPlan::Whole } else { ClipPlan::Nothing }
    } else if crossings == 1 {
        if start_inside {
            ClipPlan::StartToCrossing
        } else if end_inside {
            ClipPlan::CrossingToEnd
        } else {
            ClipPlan::Nothing
        }
    } else {
        ClipPlan::Pieces
    }
}

/// What is kept always ends at an inside end or at a crossing: a kept part
/// that starts at the segment's start needs the start inside, one that ends
/// at the segment's end needs the end inside; with at most one crossing,
/// something is kept exactly when an end is inside (both ends when there is
/// no crossing); with two or more crossings the pieces are sorted out
/// between them. Reversing a segment with one crossing and one inside end
/// keeps the same part, seen from the other end.
pub proof fn lemma_plan_keeps_inside_ends(crossings: nat, start_inside: bool, end_inside: bool)
    ensures
        plan_for(crossings, start_inside, end_inside) is Whole ==> crossings == 0 && start_inside && end_inside,
        plan_for(crossings, start_inside, end_inside) is StartToCrossing ==> crossings == 1 && start_inside,
        plan_for(crossings, start_inside, end_inside) is CrossingToEnd ==> crossings == 1 && end_inside,
        plan_for(crossings, start_inside, end_inside) is Pieces <==> crossings >= 2,
        crossings == 0 ==> (plan_for(crossings, start_inside, end_inside) is Nothing <==> !(start_inside && end_inside)),
        crossings == 1 ==> (plan_for(crossings, start_inside, end_inside) is Nothing <==> !(start_inside || end_inside)),
        crossings == 1 && start_inside != end_inside ==> (
            plan_for(crossings, start_inside, end_inside) is StartToCrossing
                <==> plan_for(crossings, end_inside, start_inside) is CrossingToEnd),
{
}

/// The plan for a segment with `crossings` crossings of the outline: with
/// none, the whole segment when both ends are inside, else nothing; with
/// one, the part on the side of an inside end (the start's first), else
/// nothing; with more, the pieces.
pub fn clip_plan(crossings: usize, start_inside: bool, end_inside: bool) -> (plan: ClipPlan)
    ensures
        plan == plan_for(crossings as nat, start_inside, end_inside),
        plan == (if crossings == 0 {
            if start_inside && end_inside { ClipPlan::Whole } else { ClipPlan::Nothing }
        } else if crossings == 1 {
            if start_inside {
                ClipPlan::StartToCrossing
            } else if end_inside {
                ClipPlan::CrossingToEnd
            } else {
                ClipPlan::Nothing
            }
        } else {
            ClipPlan::Pieces
        }),
{
    if crossings == 0 {
        if start_inside && end_inside {
            ClipPlan::Whole
        } else {
            ClipPlan::Nothing
        }
    } else if crossings == 1 {
        if start_inside {
            ClipPlan::StartToCrossing
        } else if end_inside {
            ClipPlan::CrossingToEnd
        } else {
            ClipPlan::Nothing
        }
    } else {
        ClipPlan::Pieces
    }
}

} // verus!
