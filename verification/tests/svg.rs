use rat_king::geometry::{Line, Point, Polygon};
use rat_king::svg::{
    assemble_holes, attach_holes, chains_to_svg, choose_parents, extract_viewbox, lines_to_svg,
    svg_document, OutputFormat, SvgError,
};

const HEAD_100: &str = "<?xml version=\"1.0\" encoding=\"UTF-8\"?>\n<svg xmlns=\"http://www.w3.org/2000/svg\" viewBox=\"0 0 100 100\">\n<g stroke=\"black\" stroke-width=\"0.5\" fill=\"none\">\n";
const HEAD_DEFAULT: &str = "<?xml version=\"1.0\" encoding=\"UTF-8\"?>\n<svg xmlns=\"http://www.w3.org/2000/svg\" viewBox=\"0 0 1000 1000\">\n<g stroke=\"black\" stroke-width=\"0.5\" fill=\"none\">\n";
const TAIL: &str = "</g>\n</svg>\n";

fn text_line(x1: f64, y1: f64, x2: f64, y2: f64) -> Line<String> {
    Line::new(
        format!("{:.2}", x1),
        format!("{:.2}", y1),
        format!("{:.2}", x2),
        format!("{:.2}", y2),
    )
}

fn text_point(x: f64, y: f64) -> Point<String> {
    Point::new(format!("{:.2}", x), format!("{:.2}", y))
}

fn square(x: f64, y: f64, size: f64) -> Vec<Point<f64>> {
    vec![
        Point::new(x, y),
        Point::new(x + size, y),
        Point::new(x + size, y + size),
        Point::new(x, y + size),
    ]
}

#[test]
fn viewbox_camel_case() {
    let svg = r#"<svg xmlns="http://www.w3.org/2000/svg" viewBox="0 0 100 50"><rect/></svg>"#;
    assert_eq!(extract_viewbox(svg), Some("0 0 100 50".to_string()));
}

#[test]
fn viewbox_lower_case() {
    let svg = r#"<svg viewbox="1 2 3 4"></svg>"#;
    assert_eq!(extract_viewbox(svg), Some("1 2 3 4".to_string()));
}

#[test]
fn viewbox_missing_or_unclosed() {
    assert_eq!(extract_viewbox("<svg width=\"10\"></svg>"), None);
    assert_eq!(extract_viewbox("<svg viewBox=\"0 0 1 1"), None);
    assert_eq!(extract_viewbox(""), None);
}

#[test]
fn viewbox_unclosed_camel_falls_back_to_lower() {
    assert_eq!(extract_viewbox("<svg viewbox=\"5 5 5 5\" viewBox=\"0 0 1"), Some("5 5 5 5".to_string()));
}

#[test]
fn viewbox_first_occurrence_and_empty_value() {
    assert_eq!(extract_viewbox("viewBox=\"a\" viewBox=\"b\""), Some("a".to_string()));
    assert_eq!(extract_viewbox("viewBox=\"\""), Some(String::new()));
    assert_eq!(extract_viewbox("é viewBox=\"ü 1\""), Some("ü 1".to_string()));
}

#[test]
fn document_framing() {
    let doc = svg_document("<svg viewBox=\"0 0 100 100\">", "X");
    assert_eq!(doc, format!("{}X{}", HEAD_100, TAIL));
    let doc = svg_document("<svg>", "");
    assert_eq!(doc, format!("{}{}", HEAD_DEFAULT, TAIL));
}

#[test]
fn lines_to_svg_writes_line_elements() {
    let lines = vec![text_line(0.0, 1.0, 2.5, 3.333), text_line(-1.0, 0.0, 10.0, 20.0)];
    let out = lines_to_svg(&lines, "<svg viewBox=\"0 0 100 100\"></svg>");
    let expected = format!(
        "{}  <line x1=\"0.00\" y1=\"1.00\" x2=\"2.50\" y2=\"3.33\"/>\n  <line x1=\"-1.00\" y1=\"0.00\" x2=\"10.00\" y2=\"20.00\"/>\n{}",
        HEAD_100, TAIL
    );
    assert_eq!(out, expected);
}

#[test]
fn lines_to_svg_empty_uses_default_viewbox() {
    let out = lines_to_svg(&Vec::new(), "<svg></svg>");
    assert_eq!(out, format!("{}{}", HEAD_DEFAULT, TAIL));
}

#[test]
fn chains_to_svg_writes_polylines_and_skips_short_chains() {
    let chains = vec![
        vec![text_point(0.0, 0.0), text_point(10.0, 0.0), text_point(10.0, 10.5)],
        vec![text_point(5.0, 5.0)],
        vec![],
        vec![text_point(1.0, 2.0), text_point(3.0, 4.0)],
    ];
    let out = chains_to_svg(&chains, "<svg viewBox=\"0 0 100 100\">");
    let expected = format!(
        "{}  <polyline points=\"0.00,0.00 10.00,0.00 10.00,10.50\"/>\n  <polyline points=\"1.00,2.00 3.00,4.00\"/>\n{}",
        HEAD_100, TAIL
    );
    assert_eq!(out, expected);
    assert!(out.starts_with("<?xml"));
    assert!(out.contains("<svg"));
    assert!(out.ends_with("</svg>\n"));
}

#[test]
fn error_messages() {
    assert_eq!(SvgError::NoPolygons.message(), "No polygons found in SVG");
    assert_eq!(SvgError::ParseError("bad".to_string()).message(), "SVG parse error: bad");
}

#[test]
fn output_format_compares() {
    assert!(OutputFormat::Svg == OutputFormat::Svg);
    assert!(OutputFormat::Svg != OutputFormat::Json);
}

fn table(n: usize, entries: &[(usize, usize)]) -> Vec<Vec<bool>> {
    let mut t = vec![vec![false; n]; n];
    for &(i, j) in entries {
        t[i][j] = true;
    }
    t
}

#[test]
fn parents_prefer_smallest_enclosing() {
    // 0 inside 1 and 2; 1 is smaller than 2.
    let contains = table(3, &[(0, 1), (0, 2)]);
    let smaller = table(3, &[(1, 2), (0, 1), (0, 2)]);
    assert_eq!(choose_parents(&contains, &smaller), vec![Some(1), None, None]);
    // With the other size relation, polygon 2 wins.
    let smaller = table(3, &[(2, 1), (0, 1), (0, 2)]);
    assert_eq!(choose_parents(&contains, &smaller), vec![Some(2), None, None]);
}

#[test]
fn parents_ignore_self() {
    let contains = table(2, &[(0, 0), (1, 1)]);
    let smaller = table(2, &[]);
    assert_eq!(choose_parents(&contains, &smaller), vec![None, None]);
}

#[test]
fn donut_detects_hole() {
    let outer = square(0.0, 0.0, 100.0);
    let mut hole = square(25.0, 25.0, 50.0);
    hole.reverse();
    let polygons = vec![Polygon::new(outer.clone()), Polygon::new(hole.clone())];
    let contains = table(2, &[(1, 0)]);
    let smaller = table(2, &[(1, 0)]);
    let result = assemble_holes(polygons, &contains, &smaller);
    assert_eq!(result.len(), 1, "Should have 1 outer polygon, got {}", result.len());
    assert_eq!(result[0].holes.len(), 1, "Should have 1 hole, got {}", result[0].holes.len());
    assert_eq!(result[0].outer, outer);
    assert_eq!(result[0].holes[0], hole);
}

#[test]
fn separate_polygons_remain_separate() {
    let polygons = vec![
        Polygon::new(square(0.0, 0.0, 10.0)),
        Polygon::new(square(50.0, 50.0, 10.0)),
    ];
    let result = assemble_holes(polygons, &table(2, &[]), &table(2, &[]));
    assert_eq!(result.len(), 2);
    assert!(result[0].holes.is_empty());
    assert!(result[1].holes.is_empty());
}

#[test]
fn single_polygon_is_returned_unchanged() {
    let p = Polygon::with_holes(square(0.0, 0.0, 10.0), vec![square(2.0, 2.0, 1.0)], Some("a".to_string()));
    let result = assemble_holes(vec![p], &table(1, &[]), &table(1, &[]));
    assert_eq!(result.len(), 1);
    assert_eq!(result[0].holes.len(), 1);
    assert_eq!(result[0].id, Some("a".to_string()));
}

#[test]
fn attach_keeps_order_ids_and_hole_order() {
    let polygons = vec![
        Polygon::with_id(square(1.0, 1.0, 1.0), Some("h1".to_string())),
        Polygon::with_id(square(0.0, 0.0, 10.0), Some("outer".to_string())),
        Polygon::with_id(square(3.0, 3.0, 1.0), Some("h2".to_string())),
        Polygon::with_id(square(50.0, 0.0, 10.0), Some("other".to_string())),
    ];
    let parents = vec![Some(1), None, Some(1), None];
    let result = attach_holes(polygons, &parents);
    assert_eq!(result.len(), 2);
    assert_eq!(result[0].id, Some("outer".to_string()));
    assert_eq!(result[0].holes, vec![square(1.0, 1.0, 1.0), square(3.0, 3.0, 1.0)]);
    assert_eq!(result[1].id, Some("other".to_string()));
    assert!(result[1].holes.is_empty());
}

#[test]
fn every_ring_kept_once_when_parents_are_outer() {
    let polygons: Vec<Polygon<f64>> = (0..6).map(|i| Polygon::new(square(i as f64, 0.0, 1.0))).collect();
    let parents = vec![None, Some(0), Some(3), None, Some(0), None];
    let result = attach_holes(polygons, &parents);
    let mut rings = 0;
    for p in &result {
        rings += 1 + p.holes.len();
    }
    assert_eq!(rings, 6);
    assert_eq!(result.len(), 3);
    assert_eq!(result[0].holes.len(), 2);
    assert_eq!(result[1].holes.len(), 1);
    assert_eq!(result[2].holes.len(), 0);
}

#[test]
fn nested_hole_of_a_hole_is_dropped() {
    // Polygon 2 lies in hole 1, which lies in polygon 0: ring 2 does not survive.
    let polygons: Vec<Polygon<f64>> = (0..3).map(|i| Polygon::new(square(i as f64, 0.0, 1.0))).collect();
    let parents = vec![None, Some(0), Some(1)];
    let result = attach_holes(polygons, &parents);
    assert_eq!(result.len(), 1);
    assert_eq!(result[0].holes.len(), 1);
}
