use rat_king::args::{parse_benchmark_args, parse_fill_args, parse_harness_args, split_commas, FillStop};
use rat_king::order::OrderingStrategy;
use rat_king::svg::OutputFormat;

fn strings(v: &[&str]) -> Vec<String> {
    v.iter().map(|s| s.to_string()).collect()
}

#[test]
fn fill_defaults() {
    let a = parse_fill_args(&strings(&["shape.svg"]));
    assert_eq!(a.svg_path.as_deref(), Some("shape.svg"));
    assert_eq!(a.pattern, "lines");
    assert!(a.spacing.is_none() && a.angle.is_none() && a.output_path.is_none());
    assert_eq!(a.format, OutputFormat::Svg);
    assert_eq!(a.order, OrderingStrategy::NearestNeighbor);
    assert!(!a.grouped && !a.strokes && !a.raw);
    assert!(a.sketchy.is_none());
    assert!(a.unknown.is_empty());
    assert!(a.stop.is_none());
}

#[test]
fn fill_options_and_values() {
    let a = parse_fill_args(&strings(&[
        "-p", "spiral", "-s", "3.5", "--angle", "30", "in.svg", "other.svg", "--json", "--order", "DOC",
        "--grouped", "--strokes", "--raw", "--chain-tolerance", "0.5", "-o", "out.json", "--bogus",
    ]));
    assert_eq!(a.pattern, "spiral");
    assert_eq!(a.spacing.as_deref(), Some("3.5"));
    assert_eq!(a.angle.as_deref(), Some("30"));
    assert_eq!(a.svg_path.as_deref(), Some("in.svg"));
    assert_eq!(a.format, OutputFormat::Json);
    assert_eq!(a.order, OrderingStrategy::Document);
    assert!(a.grouped && a.strokes && a.raw);
    assert_eq!(a.chain_tolerance.as_deref(), Some("0.5"));
    assert_eq!(a.output_path.as_deref(), Some("out.json"));
    assert_eq!(a.unknown, vec!["--bogus".to_string()]);
    assert!(a.stop.is_none());
}

#[test]
fn fill_value_is_the_next_argument_whatever_it_is() {
    let a = parse_fill_args(&strings(&["-p", "-s", "x.svg", "-a"]));
    assert_eq!(a.pattern, "-s");
    assert_eq!(a.svg_path.as_deref(), Some("x.svg"));
    assert!(a.angle.is_none());
}

#[test]
fn fill_stdin_and_format() {
    let a = parse_fill_args(&strings(&["-", "-f", "JSON", "--no-optimize"]));
    assert_eq!(a.svg_path.as_deref(), Some("-"));
    assert_eq!(a.format, OutputFormat::Json);
    assert_eq!(a.order, OrderingStrategy::Document);
}

#[test]
fn fill_stops() {
    let a = parse_fill_args(&strings(&["--what", "-f", "PNG", "-p", "grid"]));
    assert!(matches!(a.stop, Some(FillStop::UnknownFormat(ref f)) if f == "png"));
    assert_eq!(a.pattern, "lines");
    assert_eq!(a.unknown, vec!["--what".to_string()]);
    let a = parse_fill_args(&strings(&["--order", "Fastest"]));
    assert!(matches!(a.stop, Some(FillStop::UnknownOrder(ref o)) if o == "Fastest"));
    let a = parse_fill_args(&strings(&["-h", "--bogus"]));
    assert!(matches!(a.stop, Some(FillStop::Help)));
    assert!(a.unknown.is_empty());
}

#[test]
fn fill_sketchy_options() {
    let a = parse_fill_args(&strings(&["--roughness", "2", "--seed", "7", "--no-double-stroke"]));
    let k = a.sketchy.expect("sketchy options");
    assert_eq!(k.roughness.as_deref(), Some("2"));
    assert_eq!(k.seed.as_deref(), Some("7"));
    assert!(!k.double_stroke);
    assert!(k.bowing.is_none());
    // `--sketchy` starts over from the defaults.
    let a = parse_fill_args(&strings(&["--bowing", "3", "--sketchy"]));
    let k = a.sketchy.expect("sketchy options");
    assert!(k.bowing.is_none());
    assert!(k.double_stroke);
}

#[test]
fn benchmark_options() {
    let a = parse_benchmark_args(&strings(&["--verbose", "a.svg", "-p", "grid", "b.svg"]));
    assert_eq!(a.svg_path.as_deref(), Some("a.svg"));
    assert_eq!(a.pattern, "grid");
    assert!(!a.help);
    let a = parse_benchmark_args(&strings(&["--help", "a.svg"]));
    assert!(a.help);
    assert!(a.svg_path.is_none());
    let a = parse_benchmark_args(&strings(&[]));
    assert_eq!(a.pattern, "lines");
}

#[test]
fn harness_options() {
    let a = parse_harness_args(&strings(&[
        "-p", "lines,grid", "--analyze", "-o", "shots", "--width", "1024", "--height", "x", "-z", "map.svg",
    ]));
    assert_eq!(a.patterns.as_deref(), Some("lines,grid"));
    assert!(a.analyze && a.visual && a.json);
    assert_eq!(a.output_dir, "shots");
    assert_eq!(a.width.as_deref(), Some("1024"));
    assert_eq!(a.height.as_deref(), Some("x"));
    assert_eq!(a.svg_path.as_deref(), Some("map.svg"));
    let a = parse_harness_args(&strings(&["--visual"]));
    assert!(a.visual && a.json && !a.analyze);
    assert_eq!(a.output_dir, "harness_output");
    assert!(a.svg_path.is_none());
}

#[test]
fn commas_split_like_str_split() {
    for s in ["lines,grid", "a", "", ",", "a,,b,", "é,ü"] {
        let expected: Vec<String> = s.split(',').map(|p| p.to_string()).collect();
        assert_eq!(split_commas(s), expected);
    }
}
