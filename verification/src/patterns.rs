//! Pattern catalogue: the available fill patterns, their names and the
//! labels shown for their parameters.
use vstd::prelude::*;
use crate::text::{all_ascii, ascii_lower, spec_to_lowercase, str_equal, to_lowercase};

verus! {

/// Metadata describing a pattern for UI display.
#[derive(Debug, Clone, Copy)]
pub struct PatternMetadata {
    /// Label for the spacing parameter
    pub spacing_label: &'static str,
    /// Label for the angle parameter
    pub angle_label: &'static str,
    /// Brief description of the pattern
    pub description: &'static str,
}

impl PatternMetadata {
    /// Create new pattern metadata.
    pub fn new(spacing_label: &'static str, angle_label: &'static str, description: &'static str) -> (m: Self)
        ensures
            m.spacing_label == spacing_label,
            m.angle_label == angle_label,
            m.description == description,
    {
        PatternMetadata { spacing_label, angle_label, description }
    }
}

/// Available pattern types.
#[derive(Debug, Clone, Copy, PartialEq, Eq, Structural)]
pub enum Pattern {
    Lines,
    Crosshatch,
    Zigzag,
    Wiggle,
    Spiral,
    Fermat,
    Concentric,
    Radial,
    Honeycomb,
    Crossspiral,
    Hilbert,
    Guilloche,
    Lissajous,
    Rose,
    Phyllotaxis,
    Scribble,
    Gyroid,
    Pentagon15,
    Pentagon14,
    Grid,
    Brick,
    Truchet,
    Stipple,
    Peano,
    Sierpinski,
    Diagonal,
    Herringbone,
    Stripe,
    Tessellation,
    Harmonograph,
}

/// The name of a pattern.
pub open spec fn pattern_name(p: Pattern) -> Seq<char> {
    match p {
        Pattern::Lines => "lines"@,
        Pattern::Crosshatch => "crosshatch"@,
        Pattern::Zigzag => "zigzag"@,
        Pattern::Wiggle => "wiggle"@,
        Pattern::Spiral => "spiral"@,
        Pattern::Fermat => "fermat"@,
        Pattern::Concentric => "concentric"@,
        Pattern::Radial => "radial"@,
        Pattern::Honeycomb => "honeycomb"@,
        Pattern::Crossspiral => "crossspiral"@,
        Pattern::Hilbert => "hilbert"@,
        Pattern::Guilloche => "guilloche"@,
        Pattern::Lissajous => "lissajous"@,
        Pattern::Rose => "rose"@,
        Pattern::Phyllotaxis => "phyllotaxis"@,
        Pattern::Scribble => "scribble"@,
        Pattern::Gyroid => "gyroid"@,
        Pattern::Pentagon15 => "pentagon15"@,
        Pattern::Pentagon14 => "pentagon14"@,
        Pattern::Grid => "grid"@,
        Pattern::Brick => "brick"@,
        Pattern::Truchet => "truchet"@,
        Pattern::Stipple => "stipple"@,
        Pattern::Peano => "peano"@,
        Pattern::Sierpinski => "sierpinski"@,
        Pattern::Diagonal => "diagonal"@,
        Pattern::Herringbone => "herringbone"@,
        Pattern::Stripe => "stripe"@,
        Pattern::Tessellation => "tessellation"@,
        Pattern::Harmonograph => "harmonograph"@,
    }
}

/// The pattern that a lower-case name or alias stands for.
pub open spec fn pattern_for_alias(s: Seq<char>) -> Option<Pattern> {
    if s == "lines"@ {
        Some(Pattern::Lines)
    } else if s == "crosshatch"@ {
        Some(Pattern::Crosshatch)
    } else if s == "zigzag"@ {
        Some(Pattern::Zigzag)
    } else if s == "wiggle"@ || s == "wave"@ {
        Some(Pattern::Wiggle)
    } else if s == "spiral"@ {
        Some(Pattern::Spiral)
    } else if s == "fermat"@ {
        Some(Pattern::Fermat)
    } else if s == "concentric"@ {
        Some(Pattern::Concentric)
    } else if s == "radial"@ {
        Some(Pattern::Radial)
    } else if s == "honeycomb"@ {
        Some(Pattern::Honeycomb)
    } else if s == "crossspiral"@ {
        Some(Pattern::Crossspiral)
    } else if s == "hilbert"@ {
        Some(Pattern::Hilbert)
    } else if s == "guilloche"@ || s == "spirograph"@ {
        Some(Pattern::Guilloche)
    } else if s == "lissajous"@ {
        Some(Pattern::Lissajous)
    } else if s == "rose"@ || s == "rhodonea"@ {
        Some(Pattern::Rose)
    } else if s == "phyllotaxis"@ || s == "sunflower"@ {
        Some(Pattern::Phyllotaxis)
    } else if s == "scribble"@ {
        Some(Pattern::Scribble)
    } else if s == "gyroid"@ {
        Some(Pattern::Gyroid)
    } else if s == "pentagon15"@ || s == "pent15"@ {
        Some(Pattern::Pentagon15)
    } else if s == "pentagon14"@ || s == "pent14"@ {
        Some(Pattern::Pentagon14)
    } else if s == "grid"@ {
        Some(Pattern::Grid)
    } else if s == "brick"@ || s == "running-bond"@ {
        Some(Pattern::Brick)
    } else if s == "truchet"@ {
        Some(Pattern::Truchet)
    } else if s == "stipple"@ || s == "dots"@ {
        Some(Pattern::Stipple)
    } else if s == "peano"@ {
        Some(Pattern::Peano)
    } else if s == "sierpinski"@ || s == "arrowhead"@ {
        Some(Pattern::Sierpinski)
    } else if s == "diagonal"@ {
        Some(Pattern::Diagonal)
    } else if s == "herringbone"@ || s == "chevron"@ {
        Some(Pattern::Herringbone)
    } else if s == "stripe"@ || s == "stripes"@ || s == "bands"@ {
        Some(Pattern::Stripe)
    } else if s == "tessellation"@ || s == "triangulate"@ || s == "triangles"@ {
        Some(Pattern::Tessellation)
    } else if s == "harmonograph"@ || s == "pendulum"@ {
        Some(Pattern::Harmonograph)
    } else {
        None
    }
}

/// The labels and description of a pattern: spacing label, angle label,
/// description.
pub open spec fn pattern_metadata(p: Pattern) -> (Seq<char>, Seq<char>, Seq<char>) {
    match p {
        Pattern::Lines | Pattern::Crosshatch | Pattern::Diagonal => ("Line Spacing"@, "Angle"@, "Parallel lines at angle"@),
        Pattern::Zigzag => ("Amplitude"@, "Angle"@, "Zigzag waves with amplitude"@),
        Pattern::Wiggle => ("Wavelength"@, "Angle"@, "Smooth sine waves"@),
        Pattern::Spiral => ("Turn Spacing"@, "Start Angle"@, "Archimedean spiral"@),
        Pattern::Fermat => ("Turn Spacing"@, "Rotation"@, "Fermat (parabolic) spiral"@),
        Pattern::Concentric => ("Ring Spacing"@, "N/A"@, "Concentric offset rings"@),
        Pattern::Radial => ("Ray Count"@, "Offset"@, "Radial rays from center"@),
        Pattern::Honeycomb => ("Cell Size"@, "Angle"@, "Hexagonal honeycomb grid"@),
        Pattern::Crossspiral => ("Arm Spacing"@, "Arms"@, "Crossed spiral arms"@),
        Pattern::Hilbert => ("Detail"@, "Rotation"@, "Hilbert space-filling curve"@),
        Pattern::Guilloche => ("Complexity"@, "Phase"@, "Spirograph-like curves"@),
        Pattern::Lissajous => ("Frequency"@, "Phase"@, "Lissajous figure curves"@),
        Pattern::Rose => ("Petals"@, "Rotation"@, "Rose/rhodonea curves"@),
        Pattern::Phyllotaxis => ("Dot Spacing"@, "Golden Angle"@, "Sunflower seed pattern"@),
        Pattern::Scribble => ("Density"@, "Chaos"@, "Random scribble fill"@),
        Pattern::Gyroid => ("Cell Size"@, "Rotation"@, "3D gyroid projection"@),
        Pattern::Pentagon15 => ("Tile Size"@, "Rotation"@, "Penrose P3 tiling"@),
        Pattern::Pentagon14 => ("Tile Size"@, "Rotation"@, "Cairo pentagonal tiling"@),
        Pattern::Grid => ("Cell Size"@, "Angle"@, "Square grid pattern"@),
        Pattern::Brick => ("Brick Width"@, "Angle"@, "Running bond brick"@),
        Pattern::Truchet => ("Tile Size"@, "Rotation"@, "Random Truchet tiles"@),
        Pattern::Stipple => ("Dot Spacing"@, "Randomness"@, "Stippled dot pattern"@),
        Pattern::Peano => ("Detail"@, "Rotation"@, "Peano space-filling curve"@),
        Pattern::Sierpinski => ("Detail"@, "Rotation"@, "Sierpinski arrowhead"@),
        Pattern::Herringbone => ("Segment Size"@, "Angle"@, "Herringbone chevrons"@),
        Pattern::Stripe => ("Band Width"@, "Angle"@, "Grouped stripe bands"@),
        Pattern::Tessellation => ("N/A"@, "N/A"@, "Triangulate polygon"@),
        Pattern::Harmonograph => ("Curve Count"@, "Phase"@, "Decaying pendulum curves"@),
    }
}

/// Every pattern in declaration order.
pub open spec fn all_patterns() -> Seq<Pattern> {
    seq![
        Pattern::Lines,
        Pattern::Crosshatch,
        Pattern::Zigzag,
        Pattern::Wiggle,
        Pattern::Spiral,
        Pattern::Fermat,
        Pattern::Concentric,
        Pattern::Radial,
        Pattern::Honeycomb,
        Pattern::Crossspiral,
        Pattern::Hilbert,
        Pattern::Guilloche,
        Pattern::Lissajous,
        Pattern::Rose,
        Pattern::Phyllotaxis,
        Pattern::Scribble,
        Pattern::Gyroid,
        Pattern::Pentagon15,
        Pattern::Pentagon14,
        Pattern::Grid,
        Pattern::Brick,
        Pattern::Truchet,
        Pattern::Stipple,
        Pattern::Peano,
        Pattern::Sierpinski,
        Pattern::Diagonal,
        Pattern::Herringbone,
        Pattern::Stripe,
        Pattern::Tessellation,
        Pattern::Harmonograph,
    ]
}

impl Pattern {
    /// Get all available patterns.
    pub fn all() -> (res: &'static [Pattern])
        ensures
            res@ == all_patterns(),
    {
        &[
            Pattern::Lines,
            Pattern::Crosshatch,
            Pattern::Zigzag,
            Pattern::Wiggle,
            Pattern::Spiral,
            Pattern::Fermat,
            Pattern::Concentric,
            Pattern::Radial,
            Pattern::Honeycomb,
            Pattern::Crossspiral,
            Pattern::Hilbert,
            Pattern::Guilloche,
            Pattern::Lissajous,
            Pattern::Rose,
            Pattern::Phyllotaxis,
            Pattern::Scribble,
            Pattern::Gyroid,
            Pattern::Pentagon15,
            Pattern::Pentagon14,
            Pattern::Grid,
            Pattern::Brick,
            Pattern::Truchet,
            Pattern::Stipple,
            Pattern::Peano,
            Pattern::Sierpinski,
            Pattern::Diagonal,
            Pattern::Herringbone,
            Pattern::Stripe,
            Pattern::Tessellation,
            Pattern::Harmonograph,
        ]
    }

    /// Get pattern name as string.
    pub fn name(&self) -> (res: &'static str)
        ensures
            res@ == pattern_name(*self),
    {
        match self {
            Pattern::Lines => "lines",
            Pattern::Crosshatch => "crosshatch",
            Pattern::Zigzag => "zigzag",
            Pattern::Wiggle => "wiggle",
            Pattern::Spiral => "spiral",
            Pattern::Fermat => "fermat",
            Pattern::Concentric => "concentric",
            Pattern::Radial => "radial",
            Pattern::Honeycomb => "honeycomb",
            Pattern::Crossspiral => "crossspiral",
            Pattern::Hilbert => "hilbert",
            Pattern::Guilloche => "guilloche",
            Pattern::Lissajous => "lissajous",
            Pattern::Rose => "rose",
            Pattern::Phyllotaxis => "phyllotaxis",
            Pattern::Scribble => "scribble",
            Pattern::Gyroid => "gyroid",
            Pattern::Pentagon15 => "pentagon15",
            Pattern::Pentagon14 => "pentagon14",
            Pattern::Grid => "grid",
            Pattern::Brick => "brick",
            Pattern::Truchet => "truchet",
            Pattern::Stipple => "stipple",
            Pattern::Peano => "peano",
            Pattern::Sierpinski => "sierpinski",
            Pattern::Diagonal => "diagonal",
            Pattern::Herringbone => "herringbone",
            Pattern::Stripe => "stripe",
            Pattern::Tessellation => "tessellation",
            Pattern::Harmonograph => "harmonograph",
        }
    }

    /// The factor by which the pattern widens the spacing it is given: two
    /// for the patterns drawn in pairs of strokes or cells (zigzag, wiggle,
    /// spiral, Fermat, honeycomb, cross-spiral, grid, brick, Truchet,
    /// herringbone, stripe), one for the others.
    pub fn spacing_factor(&self) -> (f: u32)
        ensures
            f == (match *self {
                Pattern::Zigzag | Pattern::Wiggle | Pattern::Spiral | Pattern::Fermat
                | Pattern::Honeycomb | Pattern::Crossspiral | Pattern::Grid | Pattern::Brick
                | Pattern::Truchet | Pattern::Herringbone | Pattern::Stripe => 2u32,
                _ => 1u32,
            }),
    {
        match self {
            Pattern::Zigzag | Pattern::Wiggle | Pattern::Spiral | Pattern::Fermat
            | Pattern::Honeycomb | Pattern::Crossspiral | Pattern::Grid | Pattern::Brick
            | Pattern::Truchet | Pattern::Herringbone | Pattern::Stripe => 2,
            _ => 1,
        }
    }

    /// Check if pattern is a stub (not fully implemented).
    /// All patterns are now fully implemented.
    pub fn is_stub(&self) -> (res: bool)
        ensures
            !res,
    {
        false
    }

    /// Get UI metadata for this pattern.
    pub fn metadata(&self) -> (res: PatternMetadata)
        ensures
            (res.spacing_label@, res.angle_label@, res.description@) == pattern_metadata(*self),
    {
        match self {
            Pattern::Lines | Pattern::Crosshatch | Pattern::Diagonal =>
                PatternMetadata::new("Line Spacing", "Angle", "Parallel lines at angle"),
            Pattern::Zigzag =>
                PatternMetadata::new("Amplitude", "Angle", "Zigzag waves with amplitude"),
            Pattern::Wiggle =>
                PatternMetadata::new("Wavelength", "Angle", "Smooth sine waves"),
            Pattern::Spiral =>
                PatternMetadata::new("Turn Spacing", "Start Angle", "Archimedean spiral"),
            Pattern::Fermat =>
                PatternMetadata::new("Turn Spacing", "Rotation", "Fermat (parabolic) spiral"),
            Pattern::Concentric =>
                PatternMetadata::new("Ring Spacing", "N/A", "Concentric offset rings"),
            Pattern::Radial =>
                PatternMetadata::new("Ray Count", "Offset", "Radial rays from center"),
            Pattern::Honeycomb =>
                PatternMetadata::new("Cell Size", "Angle", "Hexagonal honeycomb grid"),
            Pattern::Crossspiral =>
                PatternMetadata::new("Arm Spacing", "Arms", "Crossed spiral arms"),
            Pattern::Hilbert =>
                PatternMetadata::new("Detail", "Rotation", "Hilbert space-filling curve"),
            Pattern::Guilloche =>
                PatternMetadata::new("Complexity", "Phase", "Spirograph-like curves"),
            Pattern::Lissajous =>
                PatternMetadata::new("Frequency", "Phase", "Lissajous figure curves"),
            Pattern::Rose =>
                PatternMetadata::new("Petals", "Rotation", "Rose/rhodonea curves"),
            Pattern::Phyllotaxis =>
                PatternMetadata::new("Dot Spacing", "Golden Angle", "Sunflower seed pattern"),
            Pattern::Scribble =>
                PatternMetadata::new("Density", "Chaos", "Random scribble fill"),
            Pattern::Gyroid =>
                PatternMetadata::new("Cell Size", "Rotation", "3D gyroid projection"),
            Pattern::Pentagon15 =>
                PatternMetadata::new("Tile Size", "Rotation", "Penrose P3 tiling"),
            Pattern::Pentagon14 =>
                PatternMetadata::new("Tile Size", "Rotation", "Cairo pentagonal tiling"),
            Pattern::Grid =>
                PatternMetadata::new("Cell Size", "Angle", "Square grid pattern"),
            Pattern::Brick =>
                PatternMetadata::new("Brick Width", "Angle", "Running bond brick"),
            Pattern::Truchet =>
                PatternMetadata::new("Tile Size", "Rotation", "Random Truchet tiles"),
            Pattern::Stipple =>
                PatternMetadata::new("Dot Spacing", "Randomness", "Stippled dot pattern"),
            Pattern::Peano =>
                PatternMetadata::new("Detail", "Rotation", "Peano space-filling curve"),
            Pattern::Sierpinski =>
                PatternMetadata::new("Detail", "Rotation", "Sierpinski arrowhead"),
            Pattern::Herringbone =>
                PatternMetadata::new("Segment Size", "Angle", "Herringbone chevrons"),
            Pattern::Stripe =>
                PatternMetadata::new("Band Width", "Angle", "Grouped stripe bands"),
            Pattern::Tessellation =>
                PatternMetadata::new("N/A", "N/A", "Triangulate polygon"),
            Pattern::Harmonograph =>
                PatternMetadata::new("Curve Count", "Phase", "Decaying pendulum curves"),
        }
    }

    /// Parse pattern from its name or an alias (case-insensitive).
    pub fn from_name(name: &str) -> (res: Option<Pattern>)
        ensures
            res == pattern_for_alias(spec_to_lowercase(name@)),
            all_ascii(name@) ==> res == pattern_for_alias(name@.map_values(|c: char| ascii_lower(c))),
    {
        let lower = to_lowercase(name);
        let s = lower.as_str();
        if str_equal(s, "lines") {
            Some(Pattern::Lines)
        } else if str_equal(s, "crosshatch") {
            Some(Pattern::Crosshatch)
        } else if str_equal(s, "zigzag") {
            Some(Pattern::Zigzag)
        } else if str_equal(s, "wiggle") || str_equal(s, "wave") {
            Some(Pattern::Wiggle)
        } else if str_equal(s, "spiral") {
            Some(Pattern::Spiral)
        } else if str_equal(s, "fermat") {
            Some(Pattern::Fermat)
        } else if str_equal(s, "concentric") {
            Some(Pattern::Concentric)
        } else if str_equal(s, "radial") {
            Some(Pattern::Radial)
        } else if str_equal(s, "honeycomb") {
            Some(Pattern::Honeycomb)
        } else if str_equal(s, "crossspiral") {
            Some(Pattern::Crossspiral)
        } else if str_equal(s, "hilbert") {
            Some(Pattern::Hilbert)
        } else if str_equal(s, "guilloche") || str_equal(s, "spirograph") {
            Some(Pattern::Guilloche)
        } else if str_equal(s, "lissajous") {
            Some(Pattern::Lissajous)
        } else if str_equal(s, "rose") || str_equal(s, "rhodonea") {
            Some(Pattern::Rose)
        } else if str_equal(s, "phyllotaxis") || str_equal(s, "sunflower") {
            Some(Pattern::Phyllotaxis)
        } else if str_equal(s, "scribble") {
            Some(Pattern::Scribble)
        } else if str_equal(s, "gyroid") {
            Some(Pattern::Gyroid)
        } else if str_equal(s, "pentagon15") || str_equal(s, "pent15") {
            Some(Pattern::Pentagon15)
        } else if str_equal(s, "pentagon14") || str_equal(s, "pent14") {
            Some(Pattern::Pentagon14)
        } else if str_equal(s, "grid") {
            Some(Pattern::Grid)
        } else if str_equal(s, "brick") || str_equal(s, "running-bond") {
            Some(Pattern::Brick)
        } else if str_equal(s, "truchet") {
            Some(Pattern::Truchet)
        } else if str_equal(s, "stipple") || str_equal(s, "dots") {
            Some(Pattern::Stipple)
        } else if str_equal(s, "peano") {
            Some(Pattern::Peano)
        } else if str_equal(s, "sierpinski") || str_equal(s, "arrowhead") {
            Some(Pattern::Sierpinski)
        } else if str_equal(s, "diagonal") {
            Some(Pattern::Diagonal)
        } else if str_equal(s, "herringbone") || str_equal(s, "chevron") {
            Some(Pattern::Herringbone)
        } else if str_equal(s, "stripe") || str_equal(s, "stripes") || str_equal(s, "bands") {
            Some(Pattern::Stripe)
        } else if str_equal(s, "tessellation") || str_equal(s, "triangulate") || str_equal(s, "triangles") {
            Some(Pattern::Tessellation)
        } else if str_equal(s, "harmonograph") || str_equal(s, "pendulum") {
            Some(Pattern::Harmonograph)
        } else {
            None
        }
    }
}

/// Every alias names the same pattern as the full name it abbreviates or
/// stands for: the alias and the pattern's own name parse alike.
pub proof fn lemma_aliases_name_their_pattern()
    ensures
        pattern_for_alias("wave"@) == Some(Pattern::Wiggle) && pattern_name(Pattern::Wiggle) == "wiggle"@,
        pattern_for_alias("spirograph"@) == Some(Pattern::Guilloche) && pattern_name(Pattern::Guilloche) == "guilloche"@,
        pattern_for_alias("rhodonea"@) == Some(Pattern::Rose) && pattern_name(Pattern::Rose) == "rose"@,
        pattern_for_alias("sunflower"@) == Some(Pattern::Phyllotaxis) && pattern_name(Pattern::Phyllotaxis) == "phyllotaxis"@,
        pattern_for_alias("pent15"@) == Some(Pattern::Pentagon15) && pattern_name(Pattern::Pentagon15) == "pentagon15"@,
        pattern_for_alias("pent14"@) == Some(Pattern::Pentagon14) && pattern_name(Pattern::Pentagon14) == "pentagon14"@,
        pattern_for_alias("running-bond"@) == Some(Pattern::Brick) && pattern_name(Pattern::Brick) == "brick"@,
        pattern_for_alias("dots"@) == Some(Pattern::Stipple) && pattern_name(Pattern::Stipple) == "stipple"@,
        pattern_for_alias("arrowhead"@) == Some(Pattern::Sierpinski) && pattern_name(Pattern::Sierpinski) == "sierpinski"@,
        pattern_for_alias("chevron"@) == Some(Pattern::Herringbone) && pattern_name(Pattern::Herringbone) == "herringbone"@,
        pattern_for_alias("stripes"@) == Some(Pattern::Stripe) && pattern_name(Pattern::Stripe) == "stripe"@,
        pattern_for_alias("bands"@) == Some(Pattern::Stripe) && pattern_name(Pattern::Stripe) == "stripe"@,
        pattern_for_alias("triangulate"@) == Some(Pattern::Tessellation) && pattern_name(Pattern::Tessellation) == "tessellation"@,
        pattern_for_alias("triangles"@) == Some(Pattern::Tessellation) && pattern_name(Pattern::Tessellation) == "tessellation"@,
        pattern_for_alias("pendulum"@) == Some(Pattern::Harmonograph) && pattern_name(Pattern::Harmonograph) == "harmonograph"@,
{
    reveal_strlit("lines");
    reveal_strlit("crosshatch");
    reveal_strlit("zigzag");
    reveal_strlit("wiggle");
    reveal_strlit("wave");
    reveal_strlit("spiral");
    reveal_strlit("fermat");
    reveal_strlit("concentric");
    reveal_strlit("radial");
    reveal_strlit("honeycomb");
    reveal_strlit("crossspiral");
    reveal_strlit("hilbert");
    reveal_strlit("guilloche");
    reveal_strlit("spirograph");
    reveal_strlit("lissajous");
    reveal_strlit("rose");
    reveal_strlit("rhodonea");
    reveal_strlit("phyllotaxis");
    reveal_strlit("sunflower");
    reveal_strlit("scribble");
    reveal_strlit("gyroid");
    reveal_strlit("pentagon15");
    reveal_strlit("pent15");
    reveal_strlit("pentagon14");
    reveal_strlit("pent14");
    reveal_strlit("grid");
    reveal_strlit("brick");
    reveal_strlit("running-bond");
    reveal_strlit("truchet");
    reveal_strlit("stipple");
    reveal_strlit("dots");
    reveal_strlit("peano");
    reveal_strlit("sierpinski");
    reveal_strlit("arrowhead");
    reveal_strlit("diagonal");
    reveal_strlit("herringbone");
    reveal_strlit("chevron");
    reveal_strlit("stripe");
    reveal_strlit("stripes");
    reveal_strlit("bands");
    reveal_strlit("tessellation");
    reveal_strlit("triangulate");
    reveal_strlit("triangles");
    reveal_strlit("harmonograph");
    reveal_strlit("pendulum");
    assert("spirograph"@[0] != "crosshatch"@[0]);
    assert("spirograph"@[0] != "concentric"@[0]);
    assert("sunflower"@[0] != "honeycomb"@[0]);
    assert("sunflower"@[0] != "guilloche"@[0]);
    assert("sunflower"@[0] != "lissajous"@[0]);
    assert("pent15"@[0] != "zigzag"@[0]);
    assert("pent15"@[0] != "wiggle"@[0]);
    assert("pent15"@[0] != "spiral"@[0]);
    assert("pent15"@[0] != "fermat"@[0]);
    assert("pent15"@[0] != "radial"@[0]);
    assert("pent15"@[0] != "gyroid"@[0]);
    assert("pent14"@[0] != "zigzag"@[0]);
    assert("pent14"@[0] != "wiggle"@[0]);
    assert("pent14"@[0] != "spiral"@[0]);
    assert("pent14"@[0] != "fermat"@[0]);
    assert("pent14"@[0] != "radial"@[0]);
    assert("pent14"@[0] != "gyroid"@[0]);
    assert("pent14"@[5] != "pent15"@[5]);
    assert("dots"@[0] != "wave"@[0]);
    assert("dots"@[0] != "rose"@[0]);
    assert("dots"@[0] != "grid"@[0]);
    assert("arrowhead"@[0] != "honeycomb"@[0]);
    assert("arrowhead"@[0] != "guilloche"@[0]);
    assert("arrowhead"@[0] != "lissajous"@[0]);
    assert("arrowhead"@[0] != "sunflower"@[0]);
    assert("chevron"@[0] != "hilbert"@[0]);
    assert("chevron"@[0] != "truchet"@[0]);
    assert("chevron"@[0] != "stipple"@[0]);
    assert("stripes"@[0] != "hilbert"@[0]);
    assert("stripes"@[0] != "truchet"@[0]);
    assert("stripes"@[2] != "stipple"@[2]);
    assert("stripes"@[0] != "chevron"@[0]);
    assert("bands"@[0] != "lines"@[0]);
    assert("bands"@[1] != "brick"@[1]);
    assert("bands"@[0] != "peano"@[0]);
    assert("triangulate"@[0] != "crossspiral"@[0]);
    assert("triangulate"@[0] != "phyllotaxis"@[0]);
    assert("triangulate"@[0] != "herringbone"@[0]);
    assert("triangles"@[0] != "honeycomb"@[0]);
    assert("triangles"@[0] != "guilloche"@[0]);
    assert("triangles"@[0] != "lissajous"@[0]);
    assert("triangles"@[0] != "sunflower"@[0]);
    assert("triangles"@[0] != "arrowhead"@[0]);
    assert("pendulum"@[0] != "rhodonea"@[0]);
    assert("pendulum"@[0] != "scribble"@[0]);
    assert("pendulum"@[0] != "diagonal"@[0]);
    assert("lines"@.len() == 5);
    assert("crosshatch"@.len() == 10);
    assert("zigzag"@.len() == 6);
    assert("wiggle"@.len() == 6);
    assert("wave"@.len() == 4);
    assert("spiral"@.len() == 6);
    assert("fermat"@.len() == 6);
    assert("concentric"@.len() == 10);
    assert("radial"@.len() == 6);
    assert("honeycomb"@.len() == 9);
    assert("crossspiral"@.len() == 11);
    assert("hilbert"@.len() == 7);
    assert("guilloche"@.len() == 9);
    assert("spirograph"@.len() == 10);
    assert("lissajous"@.len() == 9);
    assert("rose"@.len() == 4);
    assert("rhodonea"@.len() == 8);
    assert("phyllotaxis"@.len() == 11);
    assert("sunflower"@.len() == 9);
    assert("scribble"@.len() == 8);
    assert("gyroid"@.len() == 6);
    assert("pentagon15"@.len() == 10);
    assert("pent15"@.len() == 6);
    assert("pentagon14"@.len() == 10);
    assert("pent14"@.len() == 6);
    assert("grid"@.len() == 4);
    assert("brick"@.len() == 5);
    assert("running-bond"@.len() == 12);
    assert("truchet"@.len() == 7);
    assert("stipple"@.len() == 7);
    assert("dots"@.len() == 4);
    assert("peano"@.len() == 5);
    assert("sierpinski"@.len() == 10);
    assert("arrowhead"@.len() == 9);
    assert("diagonal"@.len() == 8);
    assert("herringbone"@.len() == 11);
    assert("chevron"@.len() == 7);
    assert("stripe"@.len() == 6);
    assert("stripes"@.len() == 7);
    assert("bands"@.len() == 5);
    assert("tessellation"@.len() == 12);
    assert("triangulate"@.len() == 11);
    assert("triangles"@.len() == 9);
    assert("harmonograph"@.len() == 12);
    assert("pendulum"@.len() == 8);
}

/// Parsing the name of a pattern gives the pattern back: every name is
/// ASCII and already lower case, and it is an alias of its own pattern.
pub proof fn lemma_pattern_name_roundtrip(p: Pattern)
    ensures
        all_ascii(pattern_name(p)),
        pattern_name(p).map_values(|c: char| ascii_lower(c)) == pattern_name(p),
        pattern_for_alias(pattern_name(p)) == Some(p),
{
        reveal_strlit("lines");
        reveal_strlit("crosshatch");
        reveal_strlit("zigzag");
        reveal_strlit("wiggle");
        reveal_strlit("wave");
        reveal_strlit("spiral");
        reveal_strlit("fermat");
        reveal_strlit("concentric");
        reveal_strlit("radial");
        reveal_strlit("honeycomb");
        reveal_strlit("crossspiral");
        reveal_strlit("hilbert");
        reveal_strlit("guilloche");
        reveal_strlit("spirograph");
        reveal_strlit("lissajous");
        reveal_strlit("rose");
        reveal_strlit("rhodonea");
        reveal_strlit("phyllotaxis");
        reveal_strlit("sunflower");
        reveal_strlit("scribble");
        reveal_strlit("gyroid");
        reveal_strlit("pentagon15");
        reveal_strlit("pent15");
        reveal_strlit("pentagon14");
        reveal_strlit("pent14");
        reveal_strlit("grid");
        reveal_strlit("brick");
        reveal_strlit("running-bond");
        reveal_strlit("truchet");
        reveal_strlit("stipple");
        reveal_strlit("dots");
        reveal_strlit("peano");
        reveal_strlit("sierpinski");
        reveal_strlit("arrowhead");
        reveal_strlit("diagonal");
        reveal_strlit("herringbone");
        reveal_strlit("chevron");
        reveal_strlit("stripe");
        reveal_strlit("stripes");
        reveal_strlit("bands");
        reveal_strlit("tessellation");
        reveal_strlit("triangulate");
        reveal_strlit("triangles");
        reveal_strlit("harmonograph");
        reveal_strlit("pendulum");
    let n = pattern_name(p);
    assert(n.map_values(|c: char| ascii_lower(c)) =~= n);
    match p {
        Pattern::Lines => assert(pattern_for_alias(n) == Some(Pattern::Lines)),
        Pattern::Crosshatch => assert(pattern_for_alias(n) == Some(Pattern::Crosshatch)),
        Pattern::Zigzag => assert(pattern_for_alias(n) == Some(Pattern::Zigzag)),
        Pattern::Wiggle => {
            assert(n[0] != "zigzag"@[0]);
            assert(pattern_for_alias(n) == Some(Pattern::Wiggle));
        }
        Pattern::Spiral => {
            assert(n[0] != "zigzag"@[0]);
            assert(n[0] != "wiggle"@[0]);
            assert(pattern_for_alias(n) == Some(Pattern::Spiral));
        }
        Pattern::Fermat => {
            assert(n[0] != "zigzag"@[0]);
            assert(n[0] != "wiggle"@[0]);
            assert(n[0] != "spiral"@[0]);
            assert(pattern_for_alias(n) == Some(Pattern::Fermat));
        }
        Pattern::Concentric => {
            assert(n[1] != "crosshatch"@[1]);
            assert(pattern_for_alias(n) == Some(Pattern::Concentric));
        }
        Pattern::Radial => {
            assert(n[0] != "zigzag"@[0]);
            assert(n[0] != "wiggle"@[0]);
            assert(n[0] != "spiral"@[0]);
            assert(n[0] != "fermat"@[0]);
            assert(pattern_for_alias(n) == Some(Pattern::Radial));
        }
        Pattern::Honeycomb => assert(pattern_for_alias(n) == Some(Pattern::Honeycomb)),
        Pattern::Crossspiral => assert(pattern_for_alias(n) == Some(Pattern::Crossspiral)),
        Pattern::Hilbert => assert(pattern_for_alias(n) == Some(Pattern::Hilbert)),
        Pattern::Guilloche => {
            assert(n[0] != "honeycomb"@[0]);
            assert(pattern_for_alias(n) == Some(Pattern::Guilloche));
        }
        Pattern::Lissajous => {
            assert(n[0] != "honeycomb"@[0]);
            assert(n[0] != "guilloche"@[0]);
            assert(pattern_for_alias(n) == Some(Pattern::Lissajous));
        }
        Pattern::Rose => {
            assert(n[0] != "wave"@[0]);
            assert(pattern_for_alias(n) == Some(Pattern::Rose));
        }
        Pattern::Phyllotaxis => {
            assert(n[0] != "crossspiral"@[0]);
            assert(pattern_for_alias(n) == Some(Pattern::Phyllotaxis));
        }
        Pattern::Scribble => {
            assert(n[0] != "rhodonea"@[0]);
            assert(pattern_for_alias(n) == Some(Pattern::Scribble));
        }
        Pattern::Gyroid => {
            assert(n[0] != "zigzag"@[0]);
            assert(n[0] != "wiggle"@[0]);
            assert(n[0] != "spiral"@[0]);
            assert(n[0] != "fermat"@[0]);
            assert(n[0] != "radial"@[0]);
            assert(pattern_for_alias(n) == Some(Pattern::Gyroid));
        }
        Pattern::Pentagon15 => {
            assert(n[0] != "crosshatch"@[0]);
            assert(n[0] != "concentric"@[0]);
            assert(n[0] != "spirograph"@[0]);
            assert(pattern_for_alias(n) == Some(Pattern::Pentagon15));
        }
        Pattern::Pentagon14 => {
            assert(n[0] != "crosshatch"@[0]);
            assert(n[0] != "concentric"@[0]);
            assert(n[0] != "spirograph"@[0]);
            assert(n[9] != "pentagon15"@[9]);
            assert(pattern_for_alias(n) == Some(Pattern::Pentagon14));
        }
        Pattern::Grid => {
            assert(n[0] != "wave"@[0]);
            assert(n[0] != "rose"@[0]);
            assert(pattern_for_alias(n) == Some(Pattern::Grid));
        }
        Pattern::Brick => {
            assert(n[0] != "lines"@[0]);
            assert(pattern_for_alias(n) == Some(Pattern::Brick));
        }
        Pattern::Truchet => {
            assert(n[0] != "hilbert"@[0]);
            assert(pattern_for_alias(n) == Some(Pattern::Truchet));
        }
        Pattern::Stipple => {
            assert(n[0] != "hilbert"@[0]);
            assert(n[0] != "truchet"@[0]);
            assert(pattern_for_alias(n) == Some(Pattern::Stipple));
        }
        Pattern::Peano => {
            assert(n[0] != "lines"@[0]);
            assert(n[0] != "brick"@[0]);
            assert(pattern_for_alias(n) == Some(Pattern::Peano));
        }
        Pattern::Sierpinski => {
            assert(n[0] != "crosshatch"@[0]);
            assert(n[0] != "concentric"@[0]);
            assert(n[1] != "spirograph"@[1]);
            assert(n[0] != "pentagon15"@[0]);
            assert(n[0] != "pentagon14"@[0]);
            assert(pattern_for_alias(n) == Some(Pattern::Sierpinski));
        }
        Pattern::Diagonal => {
            assert(n[0] != "rhodonea"@[0]);
            assert(n[0] != "scribble"@[0]);
            assert(pattern_for_alias(n) == Some(Pattern::Diagonal));
        }
        Pattern::Herringbone => {
            assert(n[0] != "crossspiral"@[0]);
            assert(n[0] != "phyllotaxis"@[0]);
            assert(pattern_for_alias(n) == Some(Pattern::Herringbone));
        }
        Pattern::Stripe => {
            assert(n[0] != "zigzag"@[0]);
            assert(n[0] != "wiggle"@[0]);
            assert(n[1] != "spiral"@[1]);
            assert(n[0] != "fermat"@[0]);
            assert(n[0] != "radial"@[0]);
            assert(n[0] != "gyroid"@[0]);
            assert(n[0] != "pent15"@[0]);
            assert(n[0] != "pent14"@[0]);
            assert(pattern_for_alias(n) == Some(Pattern::Stripe));
        }
        Pattern::Tessellation => {
            assert(n[0] != "running-bond"@[0]);
            assert(pattern_for_alias(n) == Some(Pattern::Tessellation));
        }
        Pattern::Harmonograph => {
            assert(n[0] != "running-bond"@[0]);
            assert(n[0] != "tessellation"@[0]);
            assert(pattern_for_alias(n) == Some(Pattern::Harmonograph));
        }
    }
}

/// Every pattern is listed exactly once by `Pattern::all`.
pub proof fn lemma_all_patterns_complete(p: Pattern)
    ensures
        all_patterns().len() == 30,
        all_patterns().no_duplicates(),
        all_patterns().contains(p),
{
    let s = all_patterns();
    assert(s.no_duplicates());
    match p {
        Pattern::Lines => assert(s[0] == p),
        Pattern::Crosshatch => assert(s[1] == p),
        Pattern::Zigzag => assert(s[2] == p),
        Pattern::Wiggle => assert(s[3] == p),
        Pattern::Spiral => assert(s[4] == p),
        Pattern::Fermat => assert(s[5] == p),
        Pattern::Concentric => assert(s[6] == p),
        Pattern::Radial => assert(s[7] == p),
        Pattern::Honeycomb => assert(s[8] == p),
        Pattern::Crossspiral => assert(s[9] == p),
        Pattern::Hilbert => assert(s[10] == p),
        Pattern::Guilloche => assert(s[11] == p),
        Pattern::Lissajous => assert(s[12] == p),
        Pattern::Rose => assert(s[13] == p),
        Pattern::Phyllotaxis => assert(s[14] == p),
        Pattern::Scribble => assert(s[15] == p),
        Pattern::Gyroid => assert(s[16] == p),
        Pattern::Pentagon15 => assert(s[17] == p),
        Pattern::Pentagon14 => assert(s[18] == p),
        Pattern::Grid => assert(s[19] == p),
        Pattern::Brick => assert(s[20] == p),
        Pattern::Truchet => assert(s[21] == p),
        Pattern::Stipple => assert(s[22] == p),
        Pattern::Peano => assert(s[23] == p),
        Pattern::Sierpinski => assert(s[24] == p),
        Pattern::Diagonal => assert(s[25] == p),
        Pattern::Herringbone => assert(s[26] == p),
        Pattern::Stripe => assert(s[27] == p),
        Pattern::Tessellation => assert(s[28] == p),
        Pattern::Harmonograph => assert(s[29] == p),
    }
}

/// The patterns named in `names`, in order, skipping the names that no
/// pattern answers to (names are matched as `Pattern::from_name` does).
pub open spec fn recognised(names: Seq<Seq<char>>) -> Seq<Pattern>
    decreases names.len(),
{
    if names.len() == 0 {
        Seq::empty()
    } else {
        match pattern_for_alias(spec_to_lowercase(names.last())) {
            Some(p) => recognised(names.drop_last()).push(p),
            None => recognised(names.drop_last()),
        }
    }
}

/// The patterns a run covers: every pattern when no list was given, else
/// the patterns named in the list, in order, with unknown names skipped.
/// `None` when a list was given but names no pattern.
pub fn patterns_to_run(filter: &Option<Vec<String>>) -> (res: Option<Vec<Pattern>>)
    ensures
        match filter {
            None => res matches Some(v) && v@ == all_patterns(),
            Some(names) => {
                let chosen = recognised(names@.map_values(|n: String| n@));
                if chosen.len() == 0 {
                    res is None
                } else {
                    res matches Some(v) && v@ == chosen
                }
            },
        },
{
    match filter {
        None => Some(vstd::slice::slice_to_vec(Pattern::all())),
        Some(names) => {
            let ghost views = names@.map_values(|n: String| n@);
            let mut chosen: Vec<Pattern> = Vec::new();
            let mut i: usize = 0;
            while i < names.len()
                invariant
                    i <= names.len(),
                    views == names@.map_values(|n: String| n@),
                    chosen@ == recognised(views.take(i as int)),
                decreases names.len() - i,
            {
                proof {
                    assert(views.take(i + 1).drop_last() =~= views.take(i as int));
                    assert(views.take(i + 1).last() == names@[i as int]@);
                }
                match Pattern::from_name(names[i].as_str()) {
                    Some(p) => chosen.push(p),
                    None => {},
                }
                i = i + 1;
            }
            proof {
                assert(views.take(names.len() as int) =~= views);
            }
            if chosen.len() == 0 {
                None
            } else {
                Some(chosen)
            }
        },
    }
}


} // verus!
