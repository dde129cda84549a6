use rat_king::contour::{cell_case, cell_segments, CellEdge};

#[test]
fn cell_case_packs_corners() {
    assert_eq!(cell_case(false, false, false, false), 0);
    assert_eq!(cell_case(true, false, false, false), 1);
    assert_eq!(cell_case(false, true, false, false), 2);
    assert_eq!(cell_case(false, false, true, false), 4);
    assert_eq!(cell_case(false, false, false, true), 8);
    assert_eq!(cell_case(true, true, true, true), 15);
    assert_eq!(cell_case(true, false, true, false), 5);
}

#[test]
fn empty_and_full_cells_draw_nothing() {
    assert!(cell_segments(0).is_empty());
    assert!(cell_segments(15).is_empty());
    assert!(cell_segments(16).is_empty());
}

#[test]
fn complement_draws_same_segments() {
    for c in 0u8..16 {
        assert_eq!(cell_segments(c), cell_segments(15 - c));
    }
}

#[test]
fn single_corner_segments() {
    assert_eq!(cell_segments(1), vec![(CellEdge::Left, CellEdge::Bottom)]);
    assert_eq!(cell_segments(2), vec![(CellEdge::Bottom, CellEdge::Right)]);
    assert_eq!(cell_segments(4), vec![(CellEdge::Top, CellEdge::Left)]);
    assert_eq!(cell_segments(8), vec![(CellEdge::Top, CellEdge::Right)]);
}

#[test]
fn lower_row_positive_crosses_left_and_right() {
    // Both lower corners positive: only the left and right edges are crossed.
    let c = cell_case(true, true, false, false);
    assert_eq!(c, 3);
    assert_eq!(cell_segments(c), vec![(CellEdge::Left, CellEdge::Right)]);
}

#[test]
fn left_column_and_saddle_rows() {
    // Left column positive: only the bottom and top edges are crossed.
    let c = cell_case(true, false, true, false);
    assert_eq!(c, 5);
    assert_eq!(cell_segments(c), vec![(CellEdge::Bottom, CellEdge::Top)]);
    // Saddle: all four edges are crossed.
    let s = cell_case(false, true, true, false);
    assert_eq!(s, 6);
    assert_eq!(
        cell_segments(s),
        vec![(CellEdge::Left, CellEdge::Bottom), (CellEdge::Top, CellEdge::Right)]
    );
    assert_eq!(cell_segments(10), cell_segments(5));
    assert_eq!(cell_segments(9), cell_segments(6));
}
