//! The cell table of the contour tracing used by the gyroid fill.
//!
//! A grid cell has four corners, each on the positive side of the traced
//! field or not. The cell's case packs these four answers into a number;
//! the table gives, for each case, the pairs of cell edges joined by a
//! contour segment.
use vstd::prelude::*;

verus! {

/// An edge of a grid cell.
#[derive(Clone, Copy, PartialEq, Eq, Structural, Debug)]
pub enum CellEdge {
    /// Between the lower-left and upper-left corners.
    Left,
    /// Between the lower-right and upper-right corners.
    Right,
    /// Between the lower-left and lower-right corners.
    Bottom,
    /// Between the upper-left and upper-right corners.
    Top,
}

/// The case of a cell: bit 0 for the lower-left corner, bit 1 for the
/// lower-right, bit 2 for the upper-left and bit 3 for the upper-right,
/// each set when that corner is on the positive side.
pub open spec fn corner_case(ll: bool, lr: bool, ul: bool, ur: bool) -> u8 {
    ((if ll { 1u8 } else { 0u8 }) + (if lr { 2u8 } else { 0u8 }) + (if ul { 4u8 } else { 0u8 })
        + (if ur { 8u8 } else { 0u8 })) as u8
}

/// The case of a cell from the sides of its corners.
pub fn cell_case(ll: bool, lr: bool, ul: bool, ur: bool) -> (c: u8)
    ensures
        c == corner_case(ll, lr, ul, ur),
        c < 16,
{
    (if ll { 1u8 } else { 0u8 }) + (if lr { 2u8 } else { 0u8 }) + (if ul { 4u8 } else { 0u8 })
        + (if ur { 8u8 } else { 0u8 })
}

/// The segments drawn in a cell of each case. A case and its complement
/// (`15 - case`) draw the same segments.
pub open spec fn case_segments(case: u8) -> Seq<(CellEdge, CellEdge)> {
    if case == 1 || case == 14 {
        seq![(CellEdge::Left, CellEdge::Bottom)]
    } else if case == 2 || case == 13 {
        seq![(CellEdge::Bottom, CellEdge::Right)]
    } else if case == 3 || case == 12 {
        seq![(CellEdge::Left, CellEdge::Right)]
    } else if case == 4 || case == 11 {
        seq![(CellEdge::Top, CellEdge::Left)]
    } else if case == 5 || case == 10 {
        seq![(CellEdge::Bottom, CellEdge::Top)]
    } else if case == 6 || case == 9 {
        seq![(CellEdge::Left, CellEdge::Bottom), (CellEdge::Top, CellEdge::Right)]
    } else if case == 7 || case == 8 {
        seq![(CellEdge::Top, CellEdge::Right)]
    } else {
        Seq::empty()
    }
}

/// The segments to draw in a cell of the given case.
pub fn cell_segments(case: u8) -> (segments: Vec<(CellEdge, CellEdge)>)
    ensures
        segments@ == case_segments(case),
{
    match case {
        1 | 14 => vec![(CellEdge::Left, CellEdge::Bottom)],
        2 | 13 => vec![(CellEdge::Bottom, CellEdge::Right)],
        3 | 12 => vec![(CellEdge::Left, CellEdge::Right)],
        4 | 11 => vec![(CellEdge::Top, CellEdge::Left)],
        5 | 10 => vec![(CellEdge::Bottom, CellEdge::Top)],
        6 | 9 => vec![(CellEdge::Left, CellEdge::Bottom), (CellEdge::Top, CellEdge::Right)],
        7 | 8 => vec![(CellEdge::Top, CellEdge::Right)],
        _ => vec![],
    }
}

/// The corners at the ends of an edge differ in side.
pub open spec fn crossed(e: CellEdge, ll: bool, lr: bool, ul: bool, ur: bool) -> bool {
    match e {
        CellEdge::Left => ll != ul,
        CellEdge::Right => lr != ur,
        CellEdge::Bottom => ll != lr,
        CellEdge::Top => ul != ur,
    }
}

/// `e` is an end of one of the segments.
pub open spec fn touches(segments: Seq<(CellEdge, CellEdge)>, e: CellEdge) -> bool {
    exists|t: int| 0 <= t < segments.len() && (segments[t].0 == e || segments[t].1 == e)
}

/// Marching squares: the segments of a cell end exactly on the edges whose
/// corners lie on different sides, and no segment joins an edge to itself.
/// In a saddle (diagonal corners agree, neighbours differ) all four edges
/// are crossed and two segments cut off the lower-left and upper-right
/// corners.
pub proof fn lemma_segments_on_crossed_edges(ll: bool, lr: bool, ul: bool, ur: bool, e: CellEdge)
    ensures
        touches(case_segments(corner_case(ll, lr, ul, ur)), e) <==> crossed(e, ll, lr, ul, ur),
        forall|t: int| 0 <= t < case_segments(corner_case(ll, lr, ul, ur)).len() ==>
            case_segments(corner_case(ll, lr, ul, ur))[t].0 != case_segments(corner_case(ll, lr, ul, ur))[t].1,
{
    let c = corner_case(ll, lr, ul, ur);
    let s = case_segments(c);
    if crossed(e, ll, lr, ul, ur) {
        assert(s.len() >= 1);
        if s[0].0 == e || s[0].1 == e {
            assert(touches(s, e));
        } else {
            assert(s.len() == 2);
            assert(s[1].0 == e || s[1].1 == e);
            assert(touches(s, e));
        }
    }
}

} // verus!
