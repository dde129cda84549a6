use rat_king::patterns::{Pattern, PatternMetadata};
use rat_king::text::str_equal;

#[test]
fn all_patterns_listed_once() {
    let all = Pattern::all();
    assert_eq!(all.len(), 30);
    for (i, a) in all.iter().enumerate() {
        for b in all.iter().skip(i + 1) {
            assert!(a != b);
            assert_ne!(a.name(), b.name());
        }
    }
}

#[test]
fn names_round_trip() {
    for p in Pattern::all() {
        assert_eq!(Pattern::from_name(p.name()), Some(*p));
        assert_eq!(Pattern::from_name(&p.name().to_uppercase()), Some(*p));
        assert!(!p.is_stub());
    }
}

#[test]
fn names_and_aliases() {
    assert_eq!(Pattern::from_name("lines"), Some(Pattern::Lines));
    assert_eq!(Pattern::from_name("crosshatch"), Some(Pattern::Crosshatch));
    assert_eq!(Pattern::from_name("spiral"), Some(Pattern::Spiral));
    assert_eq!(Pattern::from_name("honeycomb"), Some(Pattern::Honeycomb));
    assert_eq!(Pattern::from_name("harmonograph"), Some(Pattern::Harmonograph));
    assert_eq!(Pattern::from_name("nope"), None);
    assert_eq!(Pattern::from_name(""), None);
    assert_eq!(Pattern::Lines.name(), "lines");
    assert_eq!(Pattern::Pentagon15.name(), "pentagon15");
}

#[test]
fn metadata_labels() {
    let m = Pattern::Lines.metadata();
    assert_eq!(m.spacing_label, "Line Spacing");
    assert_eq!(m.angle_label, "Angle");
    assert_eq!(m.description, "Parallel lines at angle");
    let made = PatternMetadata::new("a", "b", "c");
    assert_eq!((made.spacing_label, made.angle_label, made.description), ("a", "b", "c"));
    for p in Pattern::all() {
        let m = p.metadata();
        assert!(!m.spacing_label.is_empty());
        assert!(!m.description.is_empty());
    }
}

#[test]
fn spacing_factors() {
    let doubled = [
        Pattern::Zigzag, Pattern::Wiggle, Pattern::Spiral, Pattern::Fermat, Pattern::Honeycomb,
        Pattern::Crossspiral, Pattern::Grid, Pattern::Brick, Pattern::Truchet, Pattern::Herringbone,
        Pattern::Stripe,
    ];
    for p in Pattern::all() {
        let expected = if doubled.contains(p) { 2 } else { 1 };
        assert_eq!(p.spacing_factor(), expected, "{:?}", p);
    }
}

#[test]
fn patterns_to_run_defaults_to_all() {
    assert_eq!(rat_king::patterns::patterns_to_run(&None), Some(Pattern::all().to_vec()));
}

#[test]
fn patterns_to_run_keeps_named_in_order() {
    let names = vec!["Spiral".to_string(), "nope".to_string(), "wave".to_string(), "lines".to_string()];
    assert_eq!(
        rat_king::patterns::patterns_to_run(&Some(names)),
        Some(vec![Pattern::Spiral, Pattern::Wiggle, Pattern::Lines])
    );
}

#[test]
fn patterns_to_run_none_when_nothing_named() {
    let names = vec!["nope".to_string(), "".to_string()];
    assert_eq!(rat_king::patterns::patterns_to_run(&Some(names)), None);
    assert_eq!(rat_king::patterns::patterns_to_run(&Some(Vec::new())), None);
}

#[test]
fn str_equal_compares_characters() {
    assert!(str_equal("lines", "lines"));
    assert!(str_equal("", ""));
    assert!(!str_equal("lines", "line"));
    assert!(!str_equal("Lines", "lines"));
    assert!(str_equal("ñé", "ñé"));
    assert!(!str_equal("ñé", "ñe"));
}
