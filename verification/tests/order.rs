use rat_king::geometry::{Point, Polygon};
use rat_king::order::{order_nearest_neighbor, order_polygons, OrderingStrategy};

fn make_polygon_at(x: f64, y: f64, size: f64) -> Polygon<f64> {
    Polygon::new(vec![
        Point::new(x, y),
        Point::new(x + size, y),
        Point::new(x + size, y + size),
        Point::new(x, y + size),
    ])
}

fn centroid(polygon: &Polygon<f64>) -> (f64, f64) {
    if polygon.outer.is_empty() {
        return (0.0, 0.0);
    }
    let sx: f64 = polygon.outer.iter().map(|p| p.x).sum();
    let sy: f64 = polygon.outer.iter().map(|p| p.y).sum();
    let n = polygon.outer.len() as f64;
    (sx / n, sy / n)
}

/// Order keys of the distances used by the nearest-neighbour ordering:
/// squared distance from the origin, and pairwise centroid distances.
fn keys(polygons: &[Polygon<f64>]) -> (Vec<u64>, Vec<Vec<u64>>) {
    let cs: Vec<(f64, f64)> = polygons.iter().map(centroid).collect();
    let origin = cs.iter().map(|c| (c.0.powi(2) + c.1.powi(2)).to_bits()).collect();
    let travel = cs
        .iter()
        .map(|a| {
            cs.iter()
                .map(|b| ((a.0 - b.0).powi(2) + (a.1 - b.1).powi(2)).sqrt().to_bits())
                .collect()
        })
        .collect();
    (origin, travel)
}

fn nn(polygons: &[Polygon<f64>]) -> Vec<usize> {
    let (o, t) = keys(polygons);
    order_nearest_neighbor(&o, &t)
}

fn travel(polygons: &[Polygon<f64>], order: &[usize]) -> f64 {
    let cs: Vec<(f64, f64)> = polygons.iter().map(centroid).collect();
    let mut total = 0.0;
    for i in 1..order.len() {
        let a = cs[order[i - 1]];
        let b = cs[order[i]];
        total += ((a.0 - b.0).powi(2) + (a.1 - b.1).powi(2)).sqrt();
    }
    total
}

#[test]
fn order_preserves_all_polygons() {
    let polygons: Vec<Polygon<f64>> = (0..10)
        .map(|i| make_polygon_at(i as f64 * 20.0, 0.0, 10.0))
        .collect();

    let order = nn(&polygons);

    assert_eq!(order.len(), polygons.len());

    let mut sorted = order.clone();
    sorted.sort();
    assert_eq!(sorted, (0..10).collect::<Vec<_>>());
}

#[test]
fn empty_and_single_polygon() {
    let empty: Vec<Polygon<f64>> = vec![];
    assert_eq!(nn(&empty), Vec::<usize>::new());

    let single = vec![make_polygon_at(0.0, 0.0, 10.0)];
    assert_eq!(nn(&single), vec![0]);
}

#[test]
fn strategy_parsing() {
    assert_eq!(OrderingStrategy::from_name("nearest"), Some(OrderingStrategy::NearestNeighbor));
    assert_eq!(OrderingStrategy::from_name("document"), Some(OrderingStrategy::Document));
    assert_eq!(OrderingStrategy::from_name("invalid"), None);
}

#[test]
fn nearest_neighbor_reduces_travel() {
    let polygons = vec![
        make_polygon_at(0.0, 0.0, 10.0),
        make_polygon_at(100.0, 0.0, 10.0),
        make_polygon_at(10.0, 10.0, 10.0),
        make_polygon_at(90.0, 10.0, 10.0),
    ];

    let doc_order: Vec<usize> = (0..polygons.len()).collect();
    let nn_order = nn(&polygons);

    let doc_travel = travel(&polygons, &doc_order);
    let nn_travel = travel(&polygons, &nn_order);

    assert!(nn_travel <= doc_travel, "NN travel {} should be <= doc travel {}", nn_travel, doc_travel);
}

#[test]
fn nearest_neighbor_exact_order() {
    let polygons = vec![
        make_polygon_at(0.0, 0.0, 10.0),
        make_polygon_at(100.0, 0.0, 10.0),
        make_polygon_at(10.0, 10.0, 10.0),
        make_polygon_at(90.0, 10.0, 10.0),
    ];
    assert_eq!(nn(&polygons), vec![0, 2, 3, 1]);
}

#[test]
fn nearest_neighbor_starts_nearest_origin() {
    let polygons = vec![
        make_polygon_at(50.0, 50.0, 10.0),
        make_polygon_at(0.0, 0.0, 10.0),
        make_polygon_at(20.0, 20.0, 10.0),
    ];
    assert_eq!(nn(&polygons), vec![1, 2, 0]);
}

#[test]
fn nearest_neighbor_tie_takes_first_index() {
    let origin = vec![5, 3, 3];
    let travel = vec![vec![0, 1, 1], vec![7, 0, 7], vec![7, 7, 0]];
    assert_eq!(order_nearest_neighbor(&origin, &travel), vec![1, 0, 2]);
}

#[test]
fn order_polygons_document_and_nearest() {
    let polygons = vec![
        make_polygon_at(50.0, 50.0, 10.0),
        make_polygon_at(0.0, 0.0, 10.0),
        make_polygon_at(20.0, 20.0, 10.0),
    ];
    let (o, t) = keys(&polygons);
    assert_eq!(order_polygons(&o, &t, OrderingStrategy::Document), vec![0, 1, 2]);
    assert_eq!(order_polygons(&o, &t, OrderingStrategy::NearestNeighbor), vec![1, 2, 0]);
}

#[test]
fn strategy_aliases_and_case() {
    assert_eq!(OrderingStrategy::from_name("DOC"), Some(OrderingStrategy::Document));
    assert_eq!(OrderingStrategy::from_name("original"), Some(OrderingStrategy::Document));
    assert_eq!(OrderingStrategy::from_name("NN"), Some(OrderingStrategy::NearestNeighbor));
    assert_eq!(OrderingStrategy::from_name("Nearest-Neighbor"), Some(OrderingStrategy::NearestNeighbor));
    assert_eq!(OrderingStrategy::from_name(""), None);
}

#[test]
fn strategy_names_round_trip() {
    assert_eq!(OrderingStrategy::all().len(), 2);
    for s in OrderingStrategy::all() {
        assert_eq!(OrderingStrategy::from_name(s.name()), Some(*s));
    }
    assert_eq!(OrderingStrategy::Document.name(), "document");
    assert_eq!(OrderingStrategy::NearestNeighbor.name(), "nearest");
    assert_eq!(OrderingStrategy::default(), OrderingStrategy::Document);
}
