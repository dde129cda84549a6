//! Command-line options of the `fill`, `benchmark` and `harness` commands.
//!
//! Options are read left to right. An option that takes a value takes the
//! next argument, whatever it is; one given last, without its value, is
//! ignored. Numbers are kept as the text given; the caller reads them, with
//! the command's default for text that is not a number.
use vstd::prelude::*;
use vstd::string::*;
use crate::order::{strategy_for_alias, OrderingStrategy};
use crate::svg::OutputFormat;
use crate::text::{spec_to_lowercase, str_equal, to_lowercase};

verus! {

/// The characters of each argument.
pub open spec fn arg_views(args: Seq<String>) -> Seq<Seq<char>> {
    args.map_values(|a: String| a@)
}

/// An argument that starts with `-`.
pub open spec fn is_flag(a: Seq<char>) -> bool {
    a.len() > 0 && a[0] == '-'
}

fn starts_with_dash(s: &str) -> (r: bool)
    ensures
        r == is_flag(s@),
{
    if s.is_empty() {
        false
    } else {
        s.get_char(0) == '-'
    }
}

// ---------------------------------------------------------------------------
// fill
// ---------------------------------------------------------------------------

/// The hand-drawn effect's options, as given.
pub struct SketchyText {
    pub roughness: Option<String>,
    pub bowing: Option<String>,
    pub double_stroke: bool,
    pub seed: Option<String>,
}

/// Why reading the `fill` options stopped before the last argument.
pub enum FillStop {
    /// Help was asked for.
    Help,
    /// An output format other than `svg` or `json` (given in lower case).
    UnknownFormat(String),
    /// An ordering strategy that has no name (given as written).
    UnknownOrder(String),
}

/// The options of the `fill` command.
pub struct FillArgs {
    pub svg_path: Option<String>,
    pub output_path: Option<String>,
    pub pattern: String,
    pub spacing: Option<String>,
    pub angle: Option<String>,
    pub format: OutputFormat,
    pub grouped: bool,
    pub order: OrderingStrategy,
    pub strokes: bool,
    pub sketchy: Option<SketchyText>,
    pub raw: bool,
    pub chain_tolerance: Option<String>,
    /// Unknown options, in the order given.
    pub unknown: Vec<String>,
    pub stop: Option<FillStop>,
}

/// The abstract value of `SketchyText`.
pub struct SketchyModel {
    pub roughness: Option<Seq<char>>,
    pub bowing: Option<Seq<char>>,
    pub double_stroke: bool,
    pub seed: Option<Seq<char>>,
}

/// The abstract value of `FillStop`.
pub enum FillStopModel {
    Help,
    UnknownFormat(Seq<char>),
    UnknownOrder(Seq<char>),
}

/// The abstract value of `FillArgs`.
pub struct FillModel {
    pub svg_path: Option<Seq<char>>,
    pub output_path: Option<Seq<char>>,
    pub pattern: Seq<char>,
    pub spacing: Option<Seq<char>>,
    pub angle: Option<Seq<char>>,
    pub format: OutputFormat,
    pub grouped: bool,
    pub order: OrderingStrategy,
    pub strokes: bool,
    pub sketchy: Option<SketchyModel>,
    pub raw: bool,
    pub chain_tolerance: Option<Seq<char>>,
    pub unknown: Seq<Seq<char>>,
    pub stop: Option<FillStopModel>,
}

pub open spec fn opt_view(o: Option<String>) -> Option<Seq<char>> {
    match o {
        Some(s) => Some(s@),
        None => None,
    }
}

impl View for SketchyText {
    type V = SketchyModel;

    open spec fn view(&self) -> SketchyModel {
        SketchyModel {
            roughness: opt_view(self.roughness),
            bowing: opt_view(self.bowing),
            double_stroke: self.double_stroke,
            seed: opt_view(self.seed),
        }
    }
}

impl View for FillStop {
    type V = FillStopModel;

    open spec fn view(&self) -> FillStopModel {
        match self {
            FillStop::Help => FillStopModel::Help,
            FillStop::UnknownFormat(s) => FillStopModel::UnknownFormat(s@),
            FillStop::UnknownOrder(s) => FillStopModel::UnknownOrder(s@),
        }
    }
}

impl View for FillArgs {
    type V = FillModel;

    open spec fn view(&self) -> FillModel {
        FillModel {
            svg_path: opt_view(self.svg_path),
            output_path: opt_view(self.output_path),
            pattern: self.pattern@,
            spacing: opt_view(self.spacing),
            angle: opt_view(self.angle),
            format: self.format,
            grouped: self.grouped,
            order: self.order,
            strokes: self.strokes,
            sketchy: match self.sketchy {
                Some(k) => Some(k.view()),
                None => None,
            },
            raw: self.raw,
            chain_tolerance: opt_view(self.chain_tolerance),
            unknown: arg_views(self.unknown@),
            stop: match self.stop {
                Some(s) => Some(s.view()),
                None => None,
            },
        }
    }
}

/// The hand-drawn options before any is given.
pub open spec fn sketchy_default() -> SketchyModel {
    SketchyModel { roughness: None, bowing: None, double_stroke: true, seed: None }
}

/// The `fill` options before any argument is read.
pub open spec fn fill_default() -> FillModel {
    FillModel {
        svg_path: None,
        output_path: None,
        pattern: "lines"@,
        spacing: None,
        angle: None,
        format: OutputFormat::Svg,
        grouped: false,
        order: OrderingStrategy::NearestNeighbor,
        strokes: false,
        sketchy: None,
        raw: false,
        chain_tolerance: None,
        unknown: Seq::empty(),
        stop: None,
    }
}

/// The hand-drawn options in effect, those given so far or the defaults.
pub open spec fn sketchy_or_default(m: FillModel) -> SketchyModel {
    match m.sketchy {
        Some(k) => k,
        None => sketchy_default(),
    }
}

/// The effect of one argument `a` on the `fill` options, where `v` is the
/// next argument, if any; with whether `v` was taken as `a`'s value.
pub open spec fn fill_token(m: FillModel, a: Seq<char>, v: Option<Seq<char>>) -> (FillModel, bool) {
    if a == "-p"@ || a == "--pattern"@ {
        match v { Some(x) => (FillModel { pattern: x, ..m }, true), None => (m, false) }
    } else if a == "-o"@ || a == "--output"@ {
        match v { Some(x) => (FillModel { output_path: Some(x), ..m }, true), None => (m, false) }
    } else if a == "-s"@ || a == "--spacing"@ {
        match v { Some(x) => (FillModel { spacing: Some(x), ..m }, true), None => (m, false) }
    } else if a == "-a"@ || a == "--angle"@ {
        match v { Some(x) => (FillModel { angle: Some(x), ..m }, true), None => (m, false) }
    } else if a == "-f"@ || a == "--format"@ {
        match v {
            Some(x) => {
                let l = spec_to_lowercase(x);
                if l == "json"@ {
                    (FillModel { format: OutputFormat::Json, ..m }, true)
                } else if l == "svg"@ {
                    (FillModel { format: OutputFormat::Svg, ..m }, true)
                } else {
                    (FillModel { stop: Some(FillStopModel::UnknownFormat(l)), ..m }, true)
                }
            },
            None => (m, false),
        }
    } else if a == "--json"@ {
        (FillModel { format: OutputFormat::Json, ..m }, false)
    } else if a == "--order"@ {
        match v {
            Some(x) => match strategy_for_alias(spec_to_lowercase(x)) {
                Some(s) => (FillModel { order: s, ..m }, true),
                None => (FillModel { stop: Some(FillStopModel::UnknownOrder(x)), ..m }, true),
            },
            None => (m, false),
        }
    } else if a == "--no-optimize"@ {
        (FillModel { order: OrderingStrategy::Document, ..m }, false)
    } else if a == "--grouped"@ {
        (FillModel { grouped: true, ..m }, false)
    } else if a == "--strokes"@ {
        (FillModel { strokes: true, ..m }, false)
    } else if a == "--sketchy"@ {
        (FillModel { sketchy: Some(sketchy_default()), ..m }, false)
    } else if a == "--roughness"@ {
        match v {
            Some(x) => (FillModel { sketchy: Some(SketchyModel { roughness: Some(x), ..sketchy_or_default(m) }), ..m }, true),
            None => (m, false),
        }
    } else if a == "--bowing"@ {
        match v {
            Some(x) => (FillModel { sketchy: Some(SketchyModel { bowing: Some(x), ..sketchy_or_default(m) }), ..m }, true),
            None => (m, false),
        }
    } else if a == "--no-double-stroke"@ {
        (FillModel { sketchy: Some(SketchyModel { double_stroke: false, ..sketchy_or_default(m) }), ..m }, false)
    } else if a == "--seed"@ {
        match v {
            Some(x) => (FillModel { sketchy: Some(SketchyModel { seed: Some(x), ..sketchy_or_default(m) }), ..m }, true),
            None => (m, false),
        }
    } else if a == "--raw"@ {
        (FillModel { raw: true, ..m }, false)
    } else if a == "--chain-tolerance"@ {
        match v { Some(x) => (FillModel { chain_tolerance: Some(x), ..m }, true), None => (m, false) }
    } else if a == "-h"@ || a == "--help"@ {
        (FillModel { stop: Some(FillStopModel::Help), ..m }, false)
    } else if a == "-"@ || !is_flag(a) {
        match m.svg_path {
            Some(_) => (m, false),
            None => (FillModel { svg_path: Some(a), ..m }, false),
        }
    } else {
        (FillModel { unknown: m.unknown.push(a), ..m }, false)
    }
}

/// The argument after position `i`, if any.
pub open spec fn next_arg(args: Seq<Seq<char>>, i: int) -> Option<Seq<char>> {
    if i + 1 < args.len() {
        Some(args[i + 1])
    } else {
        None
    }
}

/// The `fill` options after reading the arguments from position `i` on,
/// starting from `m`, until the end or a stop.
pub open spec fn fill_from(args: Seq<Seq<char>>, i: int, m: FillModel) -> FillModel
    decreases args.len() - i,
{
    if i < 0 || i >= args.len() || m.stop is Some {
        m
    } else {
        let (m2, took) = fill_token(m, args[i], next_arg(args, i));
        fill_from(args, if took { i + 2 } else { i + 1 }, m2)
    }
}

fn sketchy_default_text() -> (k: SketchyText)
    ensures
        k.view() == sketchy_default(),
{
    SketchyText { roughness: None, bowing: None, double_stroke: true, seed: None }
}

fn take_sketchy(a: &mut FillArgs) -> (k: SketchyText)
    ensures
        k.view() == sketchy_or_default(old(a).view()),
        final(a).view() == (FillModel { sketchy: None, ..old(a).view() }),
{
    match a.sketchy.take() {
        Some(k) => k,
        None => sketchy_default_text(),
    }
}

/// Apply argument `i` to the options; returns whether the next argument
/// was taken as its value.
#[verifier::rlimit(20)]
#[verifier::spinoff_prover]
fn fill_step(a: &mut FillArgs, args: &Vec<String>, i: usize) -> (took: bool)
    requires
        i < args@.len(),
        old(a).stop is None,
    ensures
        (final(a).view(), took) == fill_token(old(a).view(), args@[i as int]@, next_arg(arg_views(args@), i as int)),
{
    let ghost m = a.view();
    let ghost v = next_arg(arg_views(args@), i as int);
    let t = args[i].as_str();
    let has_value = i < args.len() - 1;
    proof {
        if has_value {
            assert(v == Some(args@[i + 1]@));
        } else {
            assert(v is None);
        }
    }
    if str_equal(t, "-p") || str_equal(t, "--pattern") {
        if has_value {
            a.pattern = args[i + 1].clone();
        }
        has_value
    } else if str_equal(t, "-o") || str_equal(t, "--output") {
        if has_value {
            a.output_path = Some(args[i + 1].clone());
        }
        has_value
    } else if str_equal(t, "-s") || str_equal(t, "--spacing") {
        if has_value {
            a.spacing = Some(args[i + 1].clone());
        }
        has_value
    } else if str_equal(t, "-a") || str_equal(t, "--angle") {
        if has_value {
            a.angle = Some(args[i + 1].clone());
        }
        has_value
    } else if str_equal(t, "-f") || str_equal(t, "--format") {
        if has_value {
            let l = to_lowercase(args[i + 1].as_str());
            if str_equal(l.as_str(), "json") {
                a.format = OutputFormat::Json;
            } else if str_equal(l.as_str(), "svg") {
                a.format = OutputFormat::Svg;
            } else {
                a.stop = Some(FillStop::UnknownFormat(l));
            }
        }
        has_value
    } else if str_equal(t, "--json") {
        a.format = OutputFormat::Json;
        false
    } else if str_equal(t, "--order") {
        if has_value {
            match OrderingStrategy::from_name(args[i + 1].as_str()) {
                Some(s) => {
                    a.order = s;
                },
                None => {
                    a.stop = Some(FillStop::UnknownOrder(args[i + 1].clone()));
                },
            }
        }
        has_value
    } else if str_equal(t, "--no-optimize") {
        a.order = OrderingStrategy::Document;
        false
    } else if str_equal(t, "--grouped") {
        a.grouped = true;
        false
    } else if str_equal(t, "--strokes") {
        a.strokes = true;
        false
    } else if str_equal(t, "--sketchy") {
        a.sketchy = Some(sketchy_default_text());
        false
    } else if str_equal(t, "--roughness") {
        if has_value {
            let mut k = take_sketchy(a);
            k.roughness = Some(args[i + 1].clone());
            a.sketchy = Some(k);
        }
        has_value
    } else if str_equal(t, "--bowing") {
        if has_value {
            let mut k = take_sketchy(a);
            k.bowing = Some(args[i + 1].clone());
            a.sketchy = Some(k);
        }
        has_value
    } else if str_equal(t, "--no-double-stroke") {
        let mut k = take_sketchy(a);
        k.double_stroke = false;
        a.sketchy = Some(k);
        false
    } else if str_equal(t, "--seed") {
        if has_value {
            let mut k = take_sketchy(a);
            k.seed = Some(args[i + 1].clone());
            a.sketchy = Some(k);
        }
        has_value
    } else if str_equal(t, "--raw") {
        a.raw = true;
        false
    } else if str_equal(t, "--chain-tolerance") {
        if has_value {
            a.chain_tolerance = Some(args[i + 1].clone());
        }
        has_value
    } else if str_equal(t, "-h") || str_equal(t, "--help") {
        a.stop = Some(FillStop::Help);
        false
    } else if str_equal(t, "-") || !starts_with_dash(t) {
        if a.svg_path.is_none() {
            a.svg_path = Some(args[i].clone());
        }
        false
    } else {
        let ghost before = a.unknown@;
        a.unknown.push(args[i].clone());
        proof {
            assert(arg_views(a.unknown@) =~= arg_views(before).push(args@[i as int]@));
        }
        false
    }
}

/// Read the options of the `fill` command.
pub fn parse_fill_args(args: &Vec<String>) -> (a: FillArgs)
    ensures
        a.view() == fill_from(arg_views(args@), 0, fill_default()),
{
    let mut a = FillArgs {
        svg_path: None,
        output_path: None,
        pattern: String::from_str("lines"),
        spacing: None,
        angle: None,
        format: OutputFormat::Svg,
        grouped: false,
        order: OrderingStrategy::NearestNeighbor,
        strokes: false,
        sketchy: None,
        raw: false,
        chain_tolerance: None,
        unknown: Vec::new(),
        stop: None,
    };
    proof {
        assert(arg_views(Seq::<String>::empty()) =~= Seq::<Seq<char>>::empty());
        assert(a.view() == fill_default());
    }
    let mut i: usize = 0;
    while i < args.len() && a.stop.is_none()
        invariant
            i <= args@.len() + 1,
            fill_from(arg_views(args@), i as int, a.view()) == fill_from(arg_views(args@), 0, fill_default()),
        decreases args@.len() + 1 - i,
    {
        let took = fill_step(&mut a, args, i);
        i = if took { i + 2 } else { i + 1 };
    }
    a
}

// ---------------------------------------------------------------------------
// benchmark
// ---------------------------------------------------------------------------

/// The options of the `benchmark` command.
pub struct BenchmarkArgs {
    pub svg_path: Option<String>,
    pub pattern: String,
    /// Help was asked for; reading stopped there.
    pub help: bool,
}

/// The abstract value of `BenchmarkArgs`.
pub struct BenchmarkModel {
    pub svg_path: Option<Seq<char>>,
    pub pattern: Seq<char>,
    pub help: bool,
}

impl View for BenchmarkArgs {
    type V = BenchmarkModel;

    open spec fn view(&self) -> BenchmarkModel {
        BenchmarkModel { svg_path: opt_view(self.svg_path), pattern: self.pattern@, help: self.help }
    }
}

/// The effect of one argument on the `benchmark` options; with whether the
/// next argument was taken as its value.
pub open spec fn benchmark_token(m: BenchmarkModel, a: Seq<char>, v: Option<Seq<char>>) -> (BenchmarkModel, bool) {
    if a == "-p"@ || a == "--pattern"@ {
        match v { Some(x) => (BenchmarkModel { pattern: x, ..m }, true), None => (m, false) }
    } else if a == "-h"@ || a == "--help"@ {
        (BenchmarkModel { help: true, ..m }, false)
    } else if !is_flag(a) && m.svg_path is None {
        (BenchmarkModel { svg_path: Some(a), ..m }, false)
    } else {
        (m, false)
    }
}

/// The `benchmark` options after reading the arguments from position `i`
/// on, until the end or a request for help.
pub open spec fn benchmark_from(args: Seq<Seq<char>>, i: int, m: BenchmarkModel) -> BenchmarkModel
    decreases args.len() - i,
{
    if i < 0 || i >= args.len() || m.help {
        m
    } else {
        let (m2, took) = benchmark_token(m, args[i], next_arg(args, i));
        benchmark_from(args, if took { i + 2 } else { i + 1 }, m2)
    }
}

/// Read the options of the `benchmark` command.
pub fn parse_benchmark_args(args: &Vec<String>) -> (a: BenchmarkArgs)
    ensures
        a.view() == benchmark_from(arg_views(args@), 0,
            BenchmarkModel { svg_path: None, pattern: "lines"@, help: false }),
{
    let mut a = BenchmarkArgs { svg_path: None, pattern: String::from_str("lines"), help: false };
    let ghost start = a.view();
    let mut i: usize = 0;
    while i < args.len() && !a.help
        invariant
            i <= args@.len() + 1,
            benchmark_from(arg_views(args@), i as int, a.view()) == benchmark_from(arg_views(args@), 0, start),
        decreases args@.len() + 1 - i,
    {
        let ghost m = a.view();
        let t = args[i].as_str();
        let has_value = i < args.len() - 1;
        proof {
            if has_value {
                assert(next_arg(arg_views(args@), i as int) == Some(args@[i + 1]@));
            }
        }
        let mut took = false;
        if str_equal(t, "-p") || str_equal(t, "--pattern") {
            if has_value {
                a.pattern = args[i + 1].clone();
                took = true;
            }
        } else if str_equal(t, "-h") || str_equal(t, "--help") {
            a.help = true;
        } else if !starts_with_dash(t) && a.svg_path.is_none() {
            a.svg_path = Some(args[i].clone());
        }
        proof {
            assert((a.view(), took) == benchmark_token(m, args@[i as int]@, next_arg(arg_views(args@), i as int)));
        }
        i = if took { i + 2 } else { i + 1 };
    }
    a
}

// ---------------------------------------------------------------------------
// harness
// ---------------------------------------------------------------------------

/// The options of the `harness` command.
pub struct HarnessArgs {
    pub svg_path: Option<String>,
    /// The comma-separated pattern names, as given.
    pub patterns: Option<String>,
    pub spacing: Option<String>,
    pub angle: Option<String>,
    pub json: bool,
    pub visual: bool,
    pub analyze: bool,
    pub output_dir: String,
    pub width: Option<String>,
    pub height: Option<String>,
}

/// The abstract value of `HarnessArgs`.
pub struct HarnessModel {
    pub svg_path: Option<Seq<char>>,
    pub patterns: Option<Seq<char>>,
    pub spacing: Option<Seq<char>>,
    pub angle: Option<Seq<char>>,
    pub json: bool,
    pub visual: bool,
    pub analyze: bool,
    pub output_dir: Seq<char>,
    pub width: Option<Seq<char>>,
    pub height: Option<Seq<char>>,
}

impl View for HarnessArgs {
    type V = HarnessModel;

    open spec fn view(&self) -> HarnessModel {
        HarnessModel {
            svg_path: opt_view(self.svg_path),
            patterns: opt_view(self.patterns),
            spacing: opt_view(self.spacing),
            angle: opt_view(self.angle),
            json: self.json,
            visual: self.visual,
            analyze: self.analyze,
            output_dir: self.output_dir@,
            width: opt_view(self.width),
            height: opt_view(self.height),
        }
    }
}

/// The `harness` options before any argument is read.
pub open spec fn harness_default() -> HarnessModel {
    HarnessModel {
        svg_path: None,
        patterns: None,
        spacing: None,
        angle: None,
        json: false,
        visual: false,
        analyze: false,
        output_dir: "harness_output"@,
        width: None,
        height: None,
    }
}

/// The effect of one argument on the `harness` options; with whether the
/// next argument was taken as its value. `--visual` implies `--json`, and
/// `--analyze` implies both.
pub open spec fn harness_token(m: HarnessModel, a: Seq<char>, v: Option<Seq<char>>) -> (HarnessModel, bool) {
    if a == "-p"@ || a == "--patterns"@ {
        match v { Some(x) => (HarnessModel { patterns: Some(x), ..m }, true), None => (m, false) }
    } else if a == "-s"@ || a == "--spacing"@ {
        match v { Some(x) => (HarnessModel { spacing: Some(x), ..m }, true), None => (m, false) }
    } else if a == "-a"@ || a == "--angle"@ {
        match v { Some(x) => (HarnessModel { angle: Some(x), ..m }, true), None => (m, false) }
    } else if a == "--json"@ {
        (HarnessModel { json: true, ..m }, false)
    } else if a == "--visual"@ {
        (HarnessModel { visual: true, json: true, ..m }, false)
    } else if a == "--analyze"@ {
        (HarnessModel { analyze: true, visual: true, json: true, ..m }, false)
    } else if a == "-o"@ || a == "--output"@ {
        match v { Some(x) => (HarnessModel { output_dir: x, ..m }, true), None => (m, false) }
    } else if a == "--width"@ {
        match v { Some(x) => (HarnessModel { width: Some(x), ..m }, true), None => (m, false) }
    } else if a == "--height"@ {
        match v { Some(x) => (HarnessModel { height: Some(x), ..m }, true), None => (m, false) }
    } else if m.svg_path is None && !is_flag(a) {
        (HarnessModel { svg_path: Some(a), ..m }, false)
    } else {
        (m, false)
    }
}

/// The `harness` options after reading the arguments from position `i` on.
pub open spec fn harness_from(args: Seq<Seq<char>>, i: int, m: HarnessModel) -> HarnessModel
    decreases args.len() - i,
{
    if i < 0 || i >= args.len() {
        m
    } else {
        let (m2, took) = harness_token(m, args[i], next_arg(args, i));
        harness_from(args, if took { i + 2 } else { i + 1 }, m2)
    }
}

#[verifier::rlimit(40)]
#[verifier::spinoff_prover]
fn harness_step(a: &mut HarnessArgs, args: &Vec<String>, i: usize) -> (took: bool)
    requires
        i < args@.len(),
    ensures
        (final(a).view(), took) == harness_token(old(a).view(), args@[i as int]@, next_arg(arg_views(args@), i as int)),
{
    let t = args[i].as_str();
    let has_value = i < args.len() - 1;
    proof {
        if has_value {
            assert(next_arg(arg_views(args@), i as int) == Some(args@[i + 1]@));
        }
    }
    if str_equal(t, "-p") || str_equal(t, "--patterns") {
        if has_value {
            a.patterns = Some(args[i + 1].clone());
        }
        has_value
    } else if str_equal(t, "-s") || str_equal(t, "--spacing") {
        if has_value {
            a.spacing = Some(args[i + 1].clone());
        }
        has_value
    } else if str_equal(t, "-a") || str_equal(t, "--angle") {
        if has_value {
            a.angle = Some(args[i + 1].clone());
        }
        has_value
    } else if str_equal(t, "--json") {
        a.json = true;
        false
    } else if str_equal(t, "--visual") {
        a.visual = true;
        a.json = true;
        false
    } else if str_equal(t, "--analyze") {
        a.analyze = true;
        a.visual = true;
        a.json = true;
        false
    } else if str_equal(t, "-o") || str_equal(t, "--output") {
        if has_value {
            a.output_dir = args[i + 1].clone();
        }
        has_value
    } else if str_equal(t, "--width") {
        if has_value {
            a.width = Some(args[i + 1].clone());
        }
        has_value
    } else if str_equal(t, "--height") {
        if has_value {
            a.height = Some(args[i + 1].clone());
        }
        has_value
    } else {
        if a.svg_path.is_none() && !starts_with_dash(t) {
            a.svg_path = Some(args[i].clone());
        }
        false
    }
}

/// Read the options of the `harness` command.
pub fn parse_harness_args(args: &Vec<String>) -> (a: HarnessArgs)
    ensures
        a.view() == harness_from(arg_views(args@), 0, harness_default()),
{
    let mut a = HarnessArgs {
        svg_path: None,
        patterns: None,
        spacing: None,
        angle: None,
        json: false,
        visual: false,
        analyze: false,
        output_dir: String::from_str("harness_output"),
        width: None,
        height: None,
    };
    let mut i: usize = 0;
    while i < args.len()
        invariant
            i <= args@.len() + 1,
            harness_from(arg_views(args@), i as int, a.view()) == harness_from(arg_views(args@), 0, harness_default()),
        decreases args@.len() + 1 - i,
    {
        let took = harness_step(&mut a, args, i);
        i = if took { i + 2 } else { i + 1 };
    }
    a
}

/// The pieces of `s` between occurrences of `sep`: one more piece than
/// there are separators, empty pieces included.
pub open spec fn split_on(s: Seq<char>, sep: char) -> Seq<Seq<char>>
    decreases s.len(),
{
    if s.len() == 0 {
        seq![Seq::empty()]
    } else {
        let rest = split_on(s.drop_last(), sep);
        if s.last() == sep {
            rest.push(Seq::empty())
        } else {
            rest.update(rest.len() - 1, rest.last().push(s.last()))
        }
    }
}

proof fn lemma_split_nonempty(s: Seq<char>, sep: char)
    ensures
        split_on(s, sep).len() >= 1,
    decreases s.len(),
{
    if s.len() > 0 {
        lemma_split_nonempty(s.drop_last(), sep);
    }
}

/// The pieces put back together with `sep` between neighbours.
pub open spec fn join_with(ps: Seq<Seq<char>>, sep: char) -> Seq<char>
    decreases ps.len(),
{
    if ps.len() == 0 {
        Seq::empty()
    } else if ps.len() == 1 {
        ps[0]
    } else {
        join_with(ps.drop_last(), sep) + seq![sep] + ps.last()
    }
}

proof fn lemma_join_extend_last(ps: Seq<Seq<char>>, sep: char, c: char)
    requires
        ps.len() >= 1,
    ensures
        join_with(ps.update(ps.len() - 1, ps.last().push(c)), sep) == join_with(ps, sep).push(c),
{
    let q = ps.update(ps.len() - 1, ps.last().push(c));
    if ps.len() == 1 {
        assert(q[0] == ps[0].push(c));
    } else {
        assert(q.drop_last() =~= ps.drop_last());
        assert(q.last() == ps.last().push(c));
        assert(join_with(q, sep) =~= join_with(ps, sep).push(c));
    }
}

/// How many times `c` occurs in `s`.
pub open spec fn occurrences(s: Seq<char>, c: char) -> nat
    decreases s.len(),
{
    if s.len() == 0 {
        0
    } else {
        occurrences(s.drop_last(), c) + if s.last() == c { 1nat } else { 0nat }
    }
}

/// Splitting at a separator loses nothing and keeps separators out of the
/// pieces: joining the pieces with the separator gives the text back, no
/// piece holds the separator, and there is one more piece than separators.
pub proof fn lemma_split_join(s: Seq<char>, sep: char)
    ensures
        join_with(split_on(s, sep), sep) == s,
        forall|i: int| 0 <= i < split_on(s, sep).len() ==> !(#[trigger] split_on(s, sep)[i]).contains(sep),
        split_on(s, sep).len() == 1 + occurrences(s, sep),
    decreases s.len(),
{
    if s.len() == 0 {
    } else {
        let d = s.drop_last();
        let c = s.last();
        lemma_split_join(d, sep);
        lemma_split_nonempty(d, sep);
        let rest = split_on(d, sep);
        assert(s =~= d.push(c));
        if c == sep {
            let ps = rest.push(Seq::empty());
            assert(ps.drop_last() =~= rest);
            assert(join_with(ps, sep) =~= d + seq![sep] + Seq::<char>::empty());
            assert forall|i: int| 0 <= i < ps.len() implies !(#[trigger] ps[i]).contains(sep) by {
                if i < rest.len() {
                    assert(ps[i] == rest[i]);
                }
            }
        } else {
            let ps = rest.update(rest.len() - 1, rest.last().push(c));
            lemma_join_extend_last(rest, sep, c);
            assert forall|i: int| 0 <= i < ps.len() implies !(#[trigger] ps[i]).contains(sep) by {
                if i < rest.len() - 1 {
                    assert(ps[i] == rest[i]);
                } else {
                    let l = rest.last();
                    assert(!rest[rest.len() - 1].contains(sep));
                    if l.push(c).contains(sep) {
                        let q = choose|q: int| 0 <= q < l.push(c).len() && l.push(c)[q] == sep;
                        if q < l.len() {
                            assert(l[q] == sep);
                        }
                    }
                }
            }
        }
    }
}

/// Split `s` at each comma.
pub fn split_commas(s: &str) -> (pieces: Vec<String>)
    ensures
        arg_views(pieces@) == split_on(s@, ','),
{
    let n = s.unicode_len();
    let mut done: Vec<String> = Vec::new();
    let mut start: usize = 0;
    let mut k: usize = 0;
    proof {
        assert(arg_views(done@) =~= Seq::<Seq<char>>::empty());
        assert(s@.subrange(0, 0) =~= Seq::<char>::empty());
        assert(s@.take(0) =~= Seq::<char>::empty());
    }
    for c in it: s.chars()
        invariant
            it.seq() == s@,
            n == s@.len(),
            k == it.index(),
            k <= n,
            start <= k,
            arg_views(done@).push(s@.subrange(start as int, k as int)) == split_on(s@.take(k as int), ','),
    {
        proof {
            assert(s@.take(k + 1).drop_last() =~= s@.take(k as int));
            assert(s@.take(k + 1).last() == c);
            lemma_split_nonempty(s@.take(k as int), ',');
        }
        let ghost before = arg_views(done@).push(s@.subrange(start as int, k as int));
        assert(k < n);
        if c == ',' {
            let ghost old_done = done@;
            let ghost old_start = start;
            let piece = s.substring_char(start, k).to_owned();
            done.push(piece);
            start = k + 1;
            proof {
                assert(arg_views(done@) =~= arg_views(old_done).push(s@.subrange(old_start as int, k as int)));
                assert(s@.subrange(start as int, k + 1) =~= Seq::<char>::empty());
                assert(arg_views(done@).push(s@.subrange(start as int, k + 1)) =~= before.push(Seq::empty()));
            }
        } else {
            proof {
                assert(s@.subrange(start as int, k + 1) =~= s@.subrange(start as int, k as int).push(c));
                assert(arg_views(done@).push(s@.subrange(start as int, k + 1))
                    =~= before.update(before.len() - 1, before.last().push(c)));
            }
        }
        k = k + 1;
    }
    proof {
        assert(s@.take(s@.len() as int) =~= s@);
    }
    let ghost whole = arg_views(done@).push(s@.subrange(start as int, k as int));
    let last = s.substring_char(start, k).to_owned();
    done.push(last);
    assert(arg_views(done@) =~= whole);
    done
}

/// The option texts differ in length or in their first distinctive letter.
proof fn lemma_flag_texts()
    ensures
        "-p"@.len() == 2 && "-p"@[1] == 'p',
        "-o"@.len() == 2 && "-o"@[1] == 'o',
        "-s"@.len() == 2 && "-s"@[1] == 's',
        "-a"@.len() == 2 && "-a"@[1] == 'a',
        "-f"@.len() == 2 && "-f"@[1] == 'f',
        "-h"@.len() == 2 && "-h"@[1] == 'h',
        "--pattern"@.len() == 9 && "--pattern"@[2] == 'p',
        "--patterns"@.len() == 10 && "--patterns"@[2] == 'p',
        "--output"@.len() == 8 && "--output"@[2] == 'o',
        "--spacing"@.len() == 9 && "--spacing"@[2] == 's',
        "--angle"@.len() == 7 && "--angle"@[2] == 'a',
        "--format"@.len() == 8 && "--format"@[2] == 'f',
        "--help"@.len() == 6 && "--help"@[2] == 'h',
        "--json"@.len() == 6 && "--json"@[2] == 'j',
        "--order"@.len() == 7 && "--order"@[2] == 'o',
        "--no-optimize"@.len() == 13 && "--no-optimize"@[2] == 'n',
        "--grouped"@.len() == 9 && "--grouped"@[2] == 'g',
        "--strokes"@.len() == 9 && "--strokes"@[2] == 's',
        "--sketchy"@.len() == 9 && "--sketchy"@[2] == 's',
        "--roughness"@.len() == 11 && "--roughness"@[2] == 'r',
        "--bowing"@.len() == 8 && "--bowing"@[2] == 'b',
        "--no-double-stroke"@.len() == 18 && "--no-double-stroke"@[2] == 'n',
        "--seed"@.len() == 6 && "--seed"@[2] == 's',
        "--raw"@.len() == 5 && "--raw"@[2] == 'r',
        "--chain-tolerance"@.len() == 17 && "--chain-tolerance"@[2] == 'c',
        "--visual"@.len() == 8 && "--visual"@[2] == 'v',
        "--analyze"@.len() == 9 && "--analyze"@[2] == 'a',
        "--width"@.len() == 7 && "--width"@[2] == 'w',
        "--height"@.len() == 8 && "--height"@[2] == 'h',
{
    reveal_strlit("-p");
    reveal_strlit("-o");
    reveal_strlit("-s");
    reveal_strlit("-a");
    reveal_strlit("-f");
    reveal_strlit("-h");
    reveal_strlit("--pattern");
    reveal_strlit("--patterns");
    reveal_strlit("--output");
    reveal_strlit("--spacing");
    reveal_strlit("--angle");
    reveal_strlit("--format");
    reveal_strlit("--help");
    reveal_strlit("--json");
    reveal_strlit("--order");
    reveal_strlit("--no-optimize");
    reveal_strlit("--grouped");
    reveal_strlit("--strokes");
    reveal_strlit("--sketchy");
    reveal_strlit("--roughness");
    reveal_strlit("--bowing");
    reveal_strlit("--no-double-stroke");
    reveal_strlit("--seed");
    reveal_strlit("--raw");
    reveal_strlit("--chain-tolerance");
    reveal_strlit("--visual");
    reveal_strlit("--analyze");
    reveal_strlit("--width");
    reveal_strlit("--height");
}

/// Each option of `fill` does the same in its short and its long form.
pub proof fn lemma_fill_long_forms(m: FillModel, v: Option<Seq<char>>)
    ensures
        fill_token(m, "--pattern"@, v) == fill_token(m, "-p"@, v),
        fill_token(m, "--output"@, v) == fill_token(m, "-o"@, v),
        fill_token(m, "--spacing"@, v) == fill_token(m, "-s"@, v),
        fill_token(m, "--angle"@, v) == fill_token(m, "-a"@, v),
        fill_token(m, "--format"@, v) == fill_token(m, "-f"@, v),
        fill_token(m, "--help"@, v) == fill_token(m, "-h"@, v),
{
    lemma_flag_texts();
}

/// An option of `fill` followed by a value takes that value into its own
/// setting and leaves every other setting as it was; without a value it
/// changes nothing.
pub proof fn lemma_fill_value_options(m: FillModel, x: Seq<char>)
    ensures
        fill_token(m, "-p"@, Some(x)).1,
        fill_token(m, "-p"@, Some(x)).0.pattern == x,
        (FillModel { pattern: m.pattern, ..fill_token(m, "-p"@, Some(x)).0 }) == m,
        fill_token(m, "-o"@, Some(x)).1,
        fill_token(m, "-o"@, Some(x)).0.output_path == Some(x),
        (FillModel { output_path: m.output_path, ..fill_token(m, "-o"@, Some(x)).0 }) == m,
        fill_token(m, "-s"@, Some(x)).1,
        fill_token(m, "-s"@, Some(x)).0.spacing == Some(x),
        (FillModel { spacing: m.spacing, ..fill_token(m, "-s"@, Some(x)).0 }) == m,
        fill_token(m, "-a"@, Some(x)).1,
        fill_token(m, "-a"@, Some(x)).0.angle == Some(x),
        (FillModel { angle: m.angle, ..fill_token(m, "-a"@, Some(x)).0 }) == m,
        fill_token(m, "-p"@, None) == (m, false),
        fill_token(m, "-o"@, None) == (m, false),
        fill_token(m, "-s"@, None) == (m, false),
        fill_token(m, "-a"@, None) == (m, false),
        fill_token(m, "-f"@, None) == (m, false),
{
    lemma_flag_texts();
}

/// Each option of `benchmark` does the same in its short and its long form.
pub proof fn lemma_benchmark_long_forms(m: BenchmarkModel, v: Option<Seq<char>>)
    ensures
        benchmark_token(m, "--pattern"@, v) == benchmark_token(m, "-p"@, v),
        benchmark_token(m, "--help"@, v) == benchmark_token(m, "-h"@, v),
{
    lemma_flag_texts();
}

/// Each option of `harness` does the same in its short and its long form,
/// and a value option takes its value into its own setting alone.
pub proof fn lemma_harness_long_forms(m: HarnessModel, v: Option<Seq<char>>, x: Seq<char>)
    ensures
        harness_token(m, "--patterns"@, v) == harness_token(m, "-p"@, v),
        harness_token(m, "--spacing"@, v) == harness_token(m, "-s"@, v),
        harness_token(m, "--angle"@, v) == harness_token(m, "-a"@, v),
        harness_token(m, "--output"@, v) == harness_token(m, "-o"@, v),
        harness_token(m, "-p"@, Some(x)).0.patterns == Some(x),
        (HarnessModel { patterns: m.patterns, ..harness_token(m, "-p"@, Some(x)).0 }) == m,
        harness_token(m, "-s"@, Some(x)).0.spacing == Some(x),
        (HarnessModel { spacing: m.spacing, ..harness_token(m, "-s"@, Some(x)).0 }) == m,
        harness_token(m, "-a"@, Some(x)).0.angle == Some(x),
        (HarnessModel { angle: m.angle, ..harness_token(m, "-a"@, Some(x)).0 }) == m,
        harness_token(m, "-o"@, Some(x)).0.output_dir == x,
        (HarnessModel { output_dir: m.output_dir, ..harness_token(m, "-o"@, Some(x)).0 }) == m,
{
    lemma_flag_texts();
}

} // verus!
