use rat_king::hilbert::{d2xy, hilbert_points};
use rat_king::lsystem::{generate_lsystem, turtle_headings};
use rat_king::peano::peano_points;

#[test]
fn hilbert_d2xy_basic() {
    let points: Vec<_> = (0..4).map(|d| d2xy(2, d)).collect();

    let mut visited = [[false; 2]; 2];
    for (x, y) in points {
        assert!(!visited[x][y], "Cell visited twice");
        visited[x][y] = true;
    }

    for row in visited {
        for cell in row {
            assert!(cell, "Cell not visited");
        }
    }
}

#[test]
fn hilbert_d2xy_larger() {
    let n = 4;
    let points: Vec<_> = (0..(n * n)).map(|d| d2xy(n, d)).collect();

    let mut visited = [[false; 4]; 4];
    for (x, y) in points {
        assert!(x < n && y < n, "Coordinates out of bounds");
        assert!(!visited[x][y], "Cell visited twice");
        visited[x][y] = true;
    }
}

#[test]
fn hilbert_first_order_cells() {
    let cells: Vec<_> = (0..4).map(|d| d2xy(2, d)).collect();
    assert_eq!(cells, vec![(0, 0), (0, 1), (1, 1), (1, 0)]);
}

#[test]
fn hilbert_second_order_cells() {
    let cells: Vec<_> = (0..16).map(|d| d2xy(4, d)).collect();
    assert_eq!(
        cells,
        vec![
            (0, 0), (1, 0), (1, 1), (0, 1),
            (0, 2), (0, 3), (1, 3), (1, 2),
            (2, 2), (2, 3), (3, 3), (3, 2),
            (3, 1), (2, 1), (2, 0), (3, 0),
        ]
    );
}

#[test]
fn hilbert_points_match_d2xy() {
    for depth in 0..5usize {
        let side = 1usize << depth;
        let points = hilbert_points(depth);
        assert_eq!(points.len(), side * side);
        for (d, p) in points.iter().enumerate() {
            assert_eq!(*p, d2xy(side, d));
        }
    }
}

#[test]
fn hilbert_consecutive_cells_are_adjacent() {
    let points = hilbert_points(4);
    for w in points.windows(2) {
        let dx = (w[0].0 as i64 - w[1].0 as i64).abs();
        let dy = (w[0].1 as i64 - w[1].1 as i64).abs();
        assert_eq!(dx + dy, 1);
    }
    let side = 16;
    assert_eq!(points[0], (0, 0));
    assert_eq!(points[points.len() - 1], (side - 1, 0));
}

#[test]
fn hilbert_grid_rounds_up_and_wraps() {
    // A side of 3 uses the grid of side 4; positions wrap modulo 16.
    assert_eq!(d2xy(3, 5), d2xy(4, 5));
    assert_eq!(d2xy(4, 17), d2xy(4, 1));
    assert_eq!(d2xy(1, 7), (0, 0));
    assert_eq!(d2xy(0, 3), (0, 0));
}

#[test]
fn lsystem_grows_correctly() {
    let depth1 = generate_lsystem(1);
    let depth2 = generate_lsystem(2);

    assert!(depth2.len() > depth1.len(), "Higher depth should produce longer string");
    assert!(depth1.contains("A") || depth1.contains("B"), "Should contain draw commands");
}

#[test]
fn lsystem_exact_strings() {
    assert_eq!(generate_lsystem(0), "A");
    assert_eq!(generate_lsystem(1), "B-A-B");
    assert_eq!(generate_lsystem(2), "A+B+A-B-A-B-A+B+A");
}

#[test]
fn lsystem_sizes() {
    for depth in 0..8usize {
        let s = generate_lsystem(depth);
        let letters = s.chars().filter(|c| *c == 'A' || *c == 'B').count();
        let p = 3usize.pow(depth as u32);
        assert_eq!(letters, p);
        assert_eq!(s.len() + 1, 2 * p);
        assert!(s.chars().all(|c| "AB+-".contains(c)));
    }
}

#[test]
fn peano_first_order_cells() {
    assert_eq!(
        peano_points(1, 0),
        vec![(0, 0), (1, 0), (2, 0), (2, 1), (1, 1), (0, 1), (0, 2), (1, 2), (2, 2)]
    );
    // Orientations are taken modulo four.
    assert_eq!(
        peano_points(1, 5),
        vec![(0, 0), (0, 1), (0, 2), (1, 2), (1, 1), (1, 0), (2, 0), (2, 1), (2, 2)]
    );
    assert_eq!(peano_points(0, 3), vec![(0, 0)]);
}

#[test]
fn peano_second_order_prefix() {
    let cells = peano_points(2, 0);
    assert_eq!(
        &cells[..18],
        &[
            (0, 0), (0, 1), (0, 2), (1, 2), (1, 1), (1, 0), (2, 0), (2, 1), (2, 2),
            (3, 0), (4, 0), (5, 0), (5, 1), (4, 1), (3, 1), (3, 2), (4, 2), (5, 2),
        ]
    );
}

#[test]
fn peano_visits_every_cell_once() {
    for depth in 0..5usize {
        let side = 3usize.pow(depth as u32);
        for o in 0..4u8 {
            let cells = peano_points(depth, o);
            assert_eq!(cells.len(), side * side);
            let mut seen = vec![false; side * side];
            for (x, y) in cells {
                assert!(x < side && y < side);
                assert!(!seen[y * side + x]);
                seen[y * side + x] = true;
            }
        }
    }
}

#[test]
fn turtle_headings_count_turns() {
    assert_eq!(turtle_headings("B-A-B"), vec![0, -1, -2]);
    assert_eq!(turtle_headings("A+B+A-B-A-B-A+B+A"), vec![0, 1, 2, 1, 0, -1, -2, -1, 0]);
    assert_eq!(turtle_headings("++x-A"), vec![1]);
    assert!(turtle_headings("+-+").is_empty());
}

#[test]
fn turtle_heading_per_drawing_symbol() {
    for depth in 0..5 {
        let s = generate_lsystem(depth);
        assert_eq!(turtle_headings(&s).len(), 3usize.pow(depth as u32));
    }
}
