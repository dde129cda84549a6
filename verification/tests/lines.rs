use rat_king::clipping::{clip_plan, ClipPlan};
use rat_king::linking::chain_order;
use rat_king::chain::{chain_counts, chains_to_lines};
use rat_king::dedup::deduplicate_lines;
use rat_king::geometry::{Line, Point, Polygon};
use rat_king::sketchy::polygon_to_lines;
use std::collections::HashMap;

#[test]
fn polygon_to_lines_works() {
    let poly = Polygon::new(vec![
        Point::new(0.0, 0.0),
        Point::new(100.0, 0.0),
        Point::new(100.0, 100.0),
        Point::new(0.0, 100.0),
    ]);

    let lines = polygon_to_lines(&poly);
    assert_eq!(lines.len(), 4);
}

#[test]
fn polygon_to_lines_edges_and_holes() {
    let poly = Polygon::with_holes(
        vec![Point::new(0, 0), Point::new(10, 0), Point::new(0, 10)],
        vec![vec![Point::new(1, 1), Point::new(2, 1)], vec![Point::new(5, 5)]],
        None,
    );
    let lines = polygon_to_lines(&poly);
    assert_eq!(
        lines,
        vec![
            Line::new(0, 0, 10, 0),
            Line::new(10, 0, 0, 10),
            Line::new(0, 10, 0, 0),
            Line::new(1, 1, 2, 1),
            Line::new(2, 1, 1, 1),
        ]
    );
    assert!(polygon_to_lines(&Polygon::new(vec![Point::new(1, 1)])).is_empty());
}

#[test]
fn chains_to_lines_splits_polylines() {
    let chains = vec![
        vec![Point::new(0, 0), Point::new(1, 0), Point::new(1, 1)],
        vec![Point::new(5, 5)],
        vec![],
        vec![Point::new(2, 2), Point::new(3, 3)],
    ];
    let lines = chains_to_lines(&chains);
    assert_eq!(
        lines,
        vec![Line::new(0, 0, 1, 0), Line::new(1, 0, 1, 1), Line::new(2, 2, 3, 3)]
    );
}

fn keyed(lines: &[Line<f64>]) -> (Vec<u64>, Vec<u64>) {
    let mut ids: HashMap<String, u64> = HashMap::new();
    let mut id = |s: String| {
        let n = ids.len() as u64;
        *ids.entry(s).or_insert(n)
    };
    let mut f = Vec::new();
    let mut b = Vec::new();
    for l in lines {
        f.push(id(format!("{:.2},{:.2}-{:.2},{:.2}", l.x1, l.y1, l.x2, l.y2)));
        b.push(id(format!("{:.2},{:.2}-{:.2},{:.2}", l.x2, l.y2, l.x1, l.y1)));
    }
    (f, b)
}

#[test]
fn dedup_removes_repeats_in_either_direction() {
    let lines = vec![
        Line::new(0.0, 0.0, 1.0, 0.0),
        Line::new(1.0, 0.0, 0.0, 0.0),
        Line::new(0.0, 0.0, 1.0, 0.001),
        Line::new(5.0, 5.0, 6.0, 6.0),
        Line::new(5.0, 5.0, 6.0, 6.0),
    ];
    let (f, b) = keyed(&lines);
    let kept = deduplicate_lines(lines, &f, &b);
    assert_eq!(kept, vec![Line::new(0.0, 0.0, 1.0, 0.0), Line::new(5.0, 5.0, 6.0, 6.0)]);
}

#[test]
fn dedup_keeps_distinct_segments() {
    let lines = vec![Line::new(0.0, 0.0, 1.0, 0.0), Line::new(0.0, 0.0, 0.0, 1.0)];
    let (f, b) = keyed(&lines);
    assert_eq!(deduplicate_lines(lines.clone(), &f, &b), lines);
    assert!(deduplicate_lines(Vec::<Line<f64>>::new(), &vec![], &vec![]).is_empty());
}

#[test]
fn chain_counts_of_polylines() {
    let chains = vec![
        vec![Point::new(0, 0), Point::new(1, 0), Point::new(1, 1)],
        vec![Point::new(5, 5)],
        vec![],
        vec![Point::new(2, 2), Point::new(3, 3)],
    ];
    let c = chain_counts(&chains);
    assert_eq!(c.chains, 4);
    assert_eq!(c.points, 6);
    assert_eq!(c.longest, 3);
    let none: Vec<Vec<Point<i32>>> = vec![];
    let c = chain_counts(&none);
    assert_eq!((c.chains, c.points, c.longest), (0, 0, 0));
}

#[test]
fn chain_order_empty() {
    assert!(chain_order(&vec![], &vec![]).is_empty());
}

#[test]
fn chain_order_two_connected() {
    // 0: (0,0)-(1,0), 1: (1,0)-(2,0)
    let succ = vec![vec![1], vec![]];
    let pred = vec![vec![], vec![0]];
    assert_eq!(chain_order(&succ, &pred), vec![vec![0, 1]]);
}

#[test]
fn chain_order_out_of_order_extends_backward() {
    // 0: (1,0)-(2,0), 1: (0,0)-(1,0)
    let succ = vec![vec![], vec![0]];
    let pred = vec![vec![1], vec![]];
    assert_eq!(chain_order(&succ, &pred), vec![vec![1, 0]]);
}

#[test]
fn chain_order_disconnected() {
    let succ = vec![vec![], vec![]];
    let pred = vec![vec![], vec![]];
    assert_eq!(chain_order(&succ, &pred), vec![vec![0], vec![1]]);
}

#[test]
fn chain_order_takes_first_unused_candidate() {
    // A closed square 0 -> 1 -> 2 -> 3 -> 0, plus a stray segment 4 that
    // also starts where 0 ends but is listed after 1.
    let succ = vec![vec![1, 4], vec![2], vec![3], vec![0], vec![]];
    let pred = vec![vec![3], vec![0], vec![1], vec![2], vec![0]];
    assert_eq!(chain_order(&succ, &pred), vec![vec![0, 1, 2, 3], vec![4]]);
}

#[test]
fn clip_plan_cases() {
    assert_eq!(clip_plan(0, true, true), ClipPlan::Whole);
    assert_eq!(clip_plan(0, true, false), ClipPlan::Nothing);
    assert_eq!(clip_plan(0, false, false), ClipPlan::Nothing);
    assert_eq!(clip_plan(1, true, false), ClipPlan::StartToCrossing);
    assert_eq!(clip_plan(1, true, true), ClipPlan::StartToCrossing);
    assert_eq!(clip_plan(1, false, true), ClipPlan::CrossingToEnd);
    assert_eq!(clip_plan(1, false, false), ClipPlan::Nothing);
    assert_eq!(clip_plan(2, false, false), ClipPlan::Pieces);
    assert_eq!(clip_plan(5, true, true), ClipPlan::Pieces);
}
