//! SVG-related logic that does not depend on coordinates: error values,
//! the `viewBox` attribute, document framing, and the assembly of holes
//! into their outer polygons.
use vstd::prelude::*;
use vstd::string::*;
use crate::geometry::{Line, Point, Polygon};
use crate::sketchy::hole_rings;

verus! {

/// Error type for SVG parsing.
#[derive(Debug)]
pub enum SvgError {
    ParseError(String),
    NoPolygons,
}

/// The message describing an error.
pub open spec fn svg_error_message(e: &SvgError) -> Seq<char> {
    match e {
        SvgError::ParseError(msg) => "SVG parse error: "@ + msg@,
        SvgError::NoPolygons => "No polygons found in SVG"@,
    }
}

impl SvgError {
    /// The human-readable message for this error.
    pub fn message(&self) -> (res: String)
        ensures
            res@ == svg_error_message(self),
    {
        match self {
            SvgError::ParseError(msg) => {
                let mut s = String::from_str("SVG parse error: ");
                s.append(msg.as_str());
                s
            },
            SvgError::NoPolygons => String::from_str("No polygons found in SVG"),
        }
    }
}

/// Output format for generated lines.
#[derive(Clone, Copy, PartialEq, Eq, Structural, Debug)]
pub enum OutputFormat {
    Svg,
    Json,
}

/// `pat` occurs in `s` starting at index `i`.
pub open spec fn occurs_at(s: Seq<char>, pat: Seq<char>, i: int) -> bool {
    0 <= i && i + pat.len() <= s.len() && s.subrange(i, i + pat.len()) == pat
}

/// The index of the first occurrence of `pat` in `s`, if any.
pub open spec fn first_occurrence(s: Seq<char>, pat: Seq<char>) -> Option<int> {
    if exists|i: int| occurs_at(s, pat, i) {
        Some(choose|i: int| occurs_at(s, pat, i) && forall|j: int| 0 <= j < i ==> !occurs_at(s, pat, j))
    } else {
        None
    }
}

/// The quoted value that follows the first occurrence of `key` (which ends
/// with an opening quote), when a closing quote follows.
pub open spec fn quoted_after(s: Seq<char>, key: Seq<char>) -> Option<Seq<char>> {
    match first_occurrence(s, key) {
        Some(start) => {
            let rest = s.skip(start + key.len());
            match first_occurrence(rest, seq!['"']) {
                Some(end) => Some(rest.take(end)),
                None => None,
            }
        },
        None => None,
    }
}

/// The `viewBox` value of an SVG document: the camel-case attribute if it
/// has a closing quote, else the lower-case one.
pub open spec fn viewbox_of(s: Seq<char>) -> Option<Seq<char>> {
    match quoted_after(s, "viewBox=\""@) {
        Some(v) => Some(v),
        None => quoted_after(s, "viewbox=\""@),
    }
}

proof fn lemma_min_occurrence(s: Seq<char>, pat: Seq<char>, i0: int)
    requires
        occurs_at(s, pat, i0),
    ensures
        exists|p: int| occurs_at(s, pat, p) && forall|j: int| 0 <= j < p ==> !occurs_at(s, pat, j),
    decreases i0,
{
    if exists|j: int| 0 <= j < i0 && occurs_at(s, pat, j) {
        let j = choose|j: int| 0 <= j < i0 && occurs_at(s, pat, j);
        lemma_min_occurrence(s, pat, j);
    } else {
        assert(forall|j: int| 0 <= j < i0 ==> !occurs_at(s, pat, j));
    }
}

/// `first_occurrence` finds the first place where `pat` occurs, and nothing
/// when it does not occur.
pub proof fn lemma_first_occurrence(s: Seq<char>, pat: Seq<char>)
    ensures
        first_occurrence(s, pat) matches Some(p) ==> occurs_at(s, pat, p)
            && forall|j: int| 0 <= j < p ==> !occurs_at(s, pat, j),
        first_occurrence(s, pat) is None <==> forall|p: int| !occurs_at(s, pat, p),
{
    if exists|i: int| occurs_at(s, pat, i) {
        let i0 = choose|i: int| occurs_at(s, pat, i);
        lemma_min_occurrence(s, pat, i0);
    }
}

/// The value read after `key` is the text between the first occurrence of
/// `key` and the next quote: it stands in `s` right after that occurrence,
/// it holds no quote, and a quote follows it. There is none when `key` does
/// not occur.
pub proof fn lemma_quoted_after(s: Seq<char>, key: Seq<char>)
    ensures
        quoted_after(s, key) matches Some(v) ==> exists|p: int| {
            &&& occurs_at(s, key, p)
            &&& forall|j: int| 0 <= j < p ==> !occurs_at(s, key, j)
            &&& p + key.len() + v.len() < s.len()
            &&& s.subrange(p + key.len(), p + key.len() + v.len()) == v
            &&& s[p + key.len() + v.len()] == '"'
            &&& !v.contains('"')
        },
        (forall|p: int| !occurs_at(s, key, p)) ==> quoted_after(s, key) is None,
{
    lemma_first_occurrence(s, key);
    if let Some(start) = first_occurrence(s, key) {
        let rest = s.skip(start + key.len());
        lemma_first_occurrence(rest, seq!['"']);
        if let Some(end) = first_occurrence(rest, seq!['"']) {
            let v = rest.take(end);
            assert(rest.subrange(end, end + 1) == seq!['"']);
            assert(rest[end] == '"') by {
                assert(rest.subrange(end, end + 1)[0] == rest[end]);
            }
            assert(s.subrange(start + key.len(), start + key.len() + v.len()) =~= v);
            assert(s[start + key.len() + v.len()] == rest[end]);
            assert(!v.contains('"')) by {
                if v.contains('"') {
                    let q = choose|q: int| 0 <= q < v.len() && v[q] == '"';
                    assert(rest.subrange(q, q + 1) =~= seq!['"']);
                    assert(occurs_at(rest, seq!['"'], q));
                }
            }
        }
    }
}

/// The `viewBox` value read from a document is quoted after
/// `viewBox="` or `viewbox="` there: it stands in the document right after
/// the first occurrence of one of them, holds no quote, and is followed by
/// a quote. When neither occurs there is no value.
pub proof fn lemma_viewbox_quoted(s: Seq<char>)
    ensures
        viewbox_of(s) matches Some(v) ==> exists|key: Seq<char>, p: int| {
            &&& (key == "viewBox=\""@ || key == "viewbox=\""@)
            &&& occurs_at(s, key, p)
            &&& p + key.len() + v.len() < s.len()
            &&& s.subrange(p + key.len(), p + key.len() + v.len()) == v
            &&& s[p + key.len() + v.len()] == '"'
            &&& !v.contains('"')
        },
        (forall|p: int| !occurs_at(s, "viewBox=\""@, p) && !occurs_at(s, "viewbox=\""@, p)) ==> viewbox_of(s) is None,
{
    lemma_quoted_after(s, "viewBox=\""@);
    lemma_quoted_after(s, "viewbox=\""@);
    if let Some(v) = viewbox_of(s) {
        if let Some(w) = quoted_after(s, "viewBox=\""@) {
            let key = "viewBox=\""@;
            let p = choose|p: int| {
                &&& occurs_at(s, key, p)
                &&& forall|j: int| 0 <= j < p ==> !occurs_at(s, key, j)
                &&& p + key.len() + w.len() < s.len()
                &&& s.subrange(p + key.len(), p + key.len() + w.len()) == w
                &&& s[p + key.len() + w.len()] == '"'
                &&& !w.contains('"')
            };
            assert(w == v);
        } else {
            let key = "viewbox=\""@;
            let p = choose|p: int| {
                &&& occurs_at(s, key, p)
                &&& forall|j: int| 0 <= j < p ==> !occurs_at(s, key, j)
                &&& p + key.len() + v.len() < s.len()
                &&& s.subrange(p + key.len(), p + key.len() + v.len()) == v
                &&& s[p + key.len() + v.len()] == '"'
                &&& !v.contains('"')
            };
        }
    }
}

/// The characters of a string slice, collected.
fn chars_of(s: &str) -> (v: Vec<char>)
    ensures
        v@ == s@,
{
    let mut v: Vec<char> = Vec::new();
    for c in it: s.chars()
        invariant
            it.seq() == s@,
            v@ == s@.take(it.index() as int),
    {
        let ghost i = it.index();
        proof {
            assert(s@.take(i + 1) =~= s@.take(i as int).push(c));
        }
        v.push(c);
    }
    assert(s@.take(s@.len() as int) =~= s@);
    v
}

/// Search `s` for `pat` from index `from` on.
fn find_from(s: &Vec<char>, pat: &Vec<char>, from: usize) -> (r: Option<usize>)
    requires
        from <= s@.len(),
        pat@.len() >= 1,
        forall|j: int| 0 <= j < from ==> !occurs_at(s@, pat@, j),
    ensures
        r == (match first_occurrence(s@, pat@) {
            Some(i) => Some(i as usize),
            None => None::<usize>,
        }),
        r matches Some(i) ==> occurs_at(s@, pat@, i as int),
        r matches Some(i) ==> forall|j: int| 0 <= j < i ==> !occurs_at(s@, pat@, j),
{
    let n = s.len();
    let m = pat.len();
    let mut i = from;
    while m <= n && i <= n - m
        invariant
            n == s@.len(),
            m == pat@.len(),
            m >= 1,
            from <= i,
            i <= n,
            forall|j: int| 0 <= j < i ==> !occurs_at(s@, pat@, j),
        decreases n - i,
    {
        let mut k: usize = 0;
        while k < m && s[i + k] == pat[k]
            invariant
                n == s@.len(),
                m == pat@.len(),
                i + m <= n,
                k <= m,
                forall|t: int| 0 <= t < k ==> s@[i + t] == pat@[t],
            decreases m - k,
        {
            k = k + 1;
        }
        if k == m {
            proof {
                assert(s@.subrange(i as int, i + m) =~= pat@);
                assert(occurs_at(s@, pat@, i as int));
                let c = choose|c: int| occurs_at(s@, pat@, c) && forall|j: int| 0 <= j < c ==> !occurs_at(s@, pat@, j);
                assert(occurs_at(s@, pat@, c));
                if c < i {
                } else if c > i {
                    assert(!occurs_at(s@, pat@, i as int));
                }
            }
            return Some(i);
        }
        proof {
            assert(s@.subrange(i as int, i + m)[k as int] == s@[i + k]);
            assert(!occurs_at(s@, pat@, i as int));
        }
        i = i + 1;
    }
    proof {
        assert forall|j: int| occurs_at(s@, pat@, j) implies false by {
            if j >= i {
                assert(j + m > n);
            }
        }
    }
    None
}

/// The characters of `s` from index `from` on.
fn tail_from(s: &Vec<char>, from: usize) -> (v: Vec<char>)
    requires
        from <= s@.len(),
    ensures
        v@ == s@.skip(from as int),
{
    let mut v: Vec<char> = Vec::new();
    let mut i = from;
    while i < s.len()
        invariant
            from <= i <= s@.len(),
            v@ =~= s@.subrange(from as int, i as int),
        decreases s@.len() - i,
    {
        v.push(s[i]);
        i = i + 1;
    }
    v
}

/// The value quoted after `key` in `s`, whose characters are `chars`.
fn find_quoted(s: &str, chars: &Vec<char>, key: &str) -> (r: Option<String>)
    requires
        chars@ == s@,
        key@.len() >= 1,
    ensures
        r matches Some(v) ==> quoted_after(s@, key@) == Some(v@),
        r is None ==> quoted_after(s@, key@) is None,
{
    let key_chars = chars_of(key);
    let total = chars.len();
    match find_from(chars, &key_chars, 0) {
        Some(start) => {
            let from = start + key_chars.len();
            let rest = tail_from(chars, from);
            let mut quote: Vec<char> = Vec::new();
            quote.push('"');
            assert(quote@ =~= seq!['"']);
            match find_from(&rest, &quote, 0) {
                Some(end) => {
                    let v = s.substring_char(from, from + end);
                    assert(v@ =~= rest@.take(end as int));
                    Some(v.to_owned())
                },
                None => None,
            }
        },
        None => None,
    }
}

/// Extract the `viewBox` value from SVG content: the value of the
/// `viewBox="..."` attribute, or failing that of `viewbox="..."`.
pub fn extract_viewbox(svg: &str) -> (r: Option<String>)
    ensures
        r matches Some(v) ==> viewbox_of(svg@) == Some(v@),
        r is None ==> viewbox_of(svg@) is None,
{
    let chars = chars_of(svg);
    proof {
        reveal_strlit("viewBox=\"");
        reveal_strlit("viewbox=\"");
    }
    match find_quoted(svg, &chars, "viewBox=\"") {
        Some(v) => Some(v),
        None => find_quoted(svg, &chars, "viewbox=\""),
    }
}

/// The viewBox used for output: the input's, or `0 0 1000 1000`.
pub open spec fn output_viewbox(source: Seq<char>) -> Seq<char> {
    match viewbox_of(source) {
        Some(v) => v,
        None => "0 0 1000 1000"@,
    }
}

/// The opening of an output document with the given viewBox.
pub open spec fn document_head(viewbox: Seq<char>) -> Seq<char> {
    "<?xml version=\"1.0\" encoding=\"UTF-8\"?>\n<svg xmlns=\"http://www.w3.org/2000/svg\" viewBox=\""@
        + viewbox + "\">\n<g stroke=\"black\" stroke-width=\"0.5\" fill=\"none\">\n"@
}

/// The close of an output document.
pub open spec fn document_tail() -> Seq<char> {
    "</g>\n</svg>\n"@
}

/// Frame SVG elements as a document: the XML header, an `<svg>` element
/// with the input's viewBox (or `0 0 1000 1000`), a group with a thin black
/// stroke and no fill holding `body`, and the closing tags.
pub fn svg_document(source_svg: &str, body: &str) -> (res: String)
    ensures
        res@ == document_head(output_viewbox(source_svg@)) + body@ + document_tail(),
{
    let viewbox = match extract_viewbox(source_svg) {
        Some(v) => v,
        None => String::from_str("0 0 1000 1000"),
    };
    let mut svg = String::from_str("<?xml version=\"1.0\" encoding=\"UTF-8\"?>\n<svg xmlns=\"http://www.w3.org/2000/svg\" viewBox=\"");
    svg.append(viewbox.as_str());
    svg.append("\">\n<g stroke=\"black\" stroke-width=\"0.5\" fill=\"none\">\n");
    svg.append(body);
    svg.append("</g>\n</svg>\n");
    svg
}

/// The `<line>` element of a segment whose coordinates are already written
/// out as text.
pub open spec fn line_element(l: Line<String>) -> Seq<char> {
    "  <line x1=\""@ + l.x1@ + "\" y1=\""@ + l.y1@ + "\" x2=\""@ + l.x2@ + "\" y2=\""@ + l.y2@ + "\"/>\n"@
}

/// The `<line>` elements of a list of segments, one after the other.
pub open spec fn lines_body(lines: Seq<Line<String>>) -> Seq<char>
    decreases lines.len(),
{
    if lines.len() == 0 {
        Seq::empty()
    } else {
        lines_body(lines.drop_last()) + line_element(lines.last())
    }
}

/// Convert lines to an SVG document of individual `<line>` elements.
///
/// The coordinates come already written out (two decimals); the document is
/// framed by `svg_document` with the viewBox of `source_svg`.
pub fn lines_to_svg(lines: &Vec<Line<String>>, source_svg: &str) -> (res: String)
    ensures
        res@ == document_head(output_viewbox(source_svg@)) + lines_body(lines@) + document_tail(),
{
    let mut body = String::new();
    let mut k: usize = 0;
    while k < lines.len()
        invariant
            k <= lines@.len(),
            body@ == lines_body(lines@.take(k as int)),
        decreases lines@.len() - k,
    {
        let l = &lines[k];
        body.append("  <line x1=\"");
        body.append(l.x1.as_str());
        body.append("\" y1=\"");
        body.append(l.y1.as_str());
        body.append("\" x2=\"");
        body.append(l.x2.as_str());
        body.append("\" y2=\"");
        body.append(l.y2.as_str());
        body.append("\"/>\n");
        proof {
            assert(lines@.take(k as int + 1).drop_last() =~= lines@.take(k as int));
            assert(body@ =~= lines_body(lines@.take(k as int)) + line_element(lines@[k as int]));
        }
        k = k + 1;
    }
    assert(lines@.take(k as int) =~= lines@);
    svg_document(source_svg, body.as_str())
}

/// The text of the points of a polyline: `x,y` pairs separated by spaces.
pub open spec fn points_text(points: Seq<Point<String>>) -> Seq<char>
    decreases points.len(),
{
    if points.len() == 0 {
        Seq::empty()
    } else if points.len() == 1 {
        points[0].x@ + ","@ + points[0].y@
    } else {
        points_text(points.drop_last()) + " "@ + points.last().x@ + ","@ + points.last().y@
    }
}

/// The `<polyline>` element of a chain, or nothing for a chain of fewer
/// than two points.
pub open spec fn chain_element(chain: Seq<Point<String>>) -> Seq<char> {
    if chain.len() < 2 {
        Seq::empty()
    } else {
        "  <polyline points=\""@ + points_text(chain) + "\"/>\n"@
    }
}

/// The `<polyline>` elements of a list of chains, one after the other.
pub open spec fn chains_body(chains: Seq<Seq<Point<String>>>) -> Seq<char>
    decreases chains.len(),
{
    if chains.len() == 0 {
        Seq::empty()
    } else {
        chains_body(chains.drop_last()) + chain_element(chains.last())
    }
}

/// The views of a list of chains.
pub open spec fn chain_views(chains: Seq<Vec<Point<String>>>) -> Seq<Seq<Point<String>>> {
    chains.map_values(|c: Vec<Point<String>>| c@)
}

/// Append the points text of a chain to `out`.
fn push_points_text(chain: &Vec<Point<String>>, out: &mut String)
    ensures
        final(out)@ == old(out)@ + points_text(chain@),
{
    let ghost start = out@;
    let mut k: usize = 0;
    while k < chain.len()
        invariant
            k <= chain@.len(),
            out@ == start + points_text(chain@.take(k as int)),
        decreases chain@.len() - k,
    {
        if k > 0 {
            out.append(" ");
        }
        out.append(chain[k].x.as_str());
        out.append(",");
        out.append(chain[k].y.as_str());
        proof {
            let t = chain@.take(k as int + 1);
            assert(t.drop_last() =~= chain@.take(k as int));
            if k == 0 {
                assert(points_text(chain@.take(0)) == Seq::<char>::empty());
                assert(out@ =~= start + points_text(t));
            } else {
                assert(out@ =~= start + points_text(t));
            }
        }
        k = k + 1;
    }
    assert(chain@.take(k as int) =~= chain@);
}

/// Convert chains to an SVG document of `<polyline>` elements.
///
/// Chains of fewer than two points are skipped. The coordinates come
/// already written out (two decimals); the document is framed by
/// `svg_document` with the viewBox of `source_svg`.
pub fn chains_to_svg(chains: &Vec<Vec<Point<String>>>, source_svg: &str) -> (res: String)
    ensures
        res@ == document_head(output_viewbox(source_svg@)) + chains_body(chain_views(chains@)) + document_tail(),
{
    let ghost views = chain_views(chains@);
    let mut body = String::new();
    let mut k: usize = 0;
    while k < chains.len()
        invariant
            k <= chains@.len(),
            views == chain_views(chains@),
            body@ == chains_body(views.take(k as int)),
        decreases chains@.len() - k,
    {
        let ghost before = body@;
        let chain = &chains[k];
        if chain.len() >= 2 {
            body.append("  <polyline points=\"");
            push_points_text(chain, &mut body);
            body.append("\"/>\n");
        }
        proof {
            assert(views.take(k as int + 1).drop_last() =~= views.take(k as int));
            assert(views[k as int] == chain@);
            assert(body@ =~= before + chain_element(chain@));
        }
        k = k + 1;
    }
    assert(views.take(k as int) =~= views);
    svg_document(source_svg, body.as_str())
}

/// Pick the parent of each polygon that is a hole of another.
///
/// `contains[i][j]` says that polygon `i` lies inside polygon `j` with the
/// opposite winding and a smaller area; `smaller[a][b]` says that polygon
/// `a` has a smaller area than polygon `b`. For each `i`, the candidates
/// `j != i` are scanned in order; the first becomes the parent, and a later
/// one replaces it when it is smaller, so that the most immediate
/// enclosing polygon wins.
pub open spec fn parent_scan(contains: Seq<Seq<bool>>, smaller: Seq<Seq<bool>>, i: int, upto: int) -> Option<usize>
    decreases upto,
{
    if upto <= 0 {
        None
    } else {
        let j = upto - 1;
        let prev = parent_scan(contains, smaller, i, j);
        if j != i && contains[i][j] {
            match prev {
                Some(e) => if smaller[j][e as int] { Some(j as usize) } else { prev },
                None => Some(j as usize),
            }
        } else {
            prev
        }
    }
}

/// Relations over `n` polygons given as `n` by `n` tables.
pub open spec fn square_table(t: Seq<Vec<bool>>, n: nat) -> bool {
    t.len() == n && forall|i: int| 0 <= i < n ==> (#[trigger] t[i])@.len() == n
}

/// The table views.
pub open spec fn table_view(t: Seq<Vec<bool>>) -> Seq<Seq<bool>> {
    t.map_values(|r: Vec<bool>| r@)
}

/// The parent chosen for polygon `i` has it inside, and there is one
/// exactly when some other polygon has it inside.
pub proof fn lemma_parent_scan(contains: Seq<Seq<bool>>, smaller: Seq<Seq<bool>>, i: int, upto: int)
    requires
        upto <= usize::MAX,
    ensures
        parent_scan(contains, smaller, i, upto) matches Some(p) ==> (p != i && 0 <= p < upto && contains[i][p as int]),
        parent_scan(contains, smaller, i, upto) is None <==> (forall|j: int| 0 <= j < upto && j != i ==> !contains[i][j]),
    decreases upto,
{
    if upto > 0 {
        lemma_parent_scan(contains, smaller, i, upto - 1);
    }
}

/// `smaller` orders the first `n` polygons strictly: no polygon is smaller
/// than itself, and smaller than smaller is smaller.
pub open spec fn strict_order(smaller: Seq<Seq<bool>>, n: int) -> bool {
    &&& forall|a: int| 0 <= a < n ==> !#[trigger] smaller[a][a]
    &&& forall|a: int, b: int, c: int| 0 <= a < n && 0 <= b < n && 0 <= c < n && #[trigger] smaller[a][b] && #[trigger] smaller[b][c]
        ==> smaller[a][c]
}

/// The parent chosen for polygon `i` is a smallest polygon that has `i`
/// inside: when the areas are strictly ordered, no other polygon that has
/// `i` inside is smaller than it.
pub proof fn lemma_parent_smallest(contains: Seq<Seq<bool>>, smaller: Seq<Seq<bool>>, i: int, upto: int)
    requires
        upto <= usize::MAX,
        strict_order(smaller, upto),
    ensures
        parent_scan(contains, smaller, i, upto) matches Some(p) ==> forall|j: int|
            0 <= j < upto && j != i && #[trigger] contains[i][j] ==> !smaller[j][p as int],
    decreases upto,
{
    if upto > 0 {
        let j = upto - 1;
        assert(strict_order(smaller, j));
        lemma_parent_smallest(contains, smaller, i, j);
        lemma_parent_scan(contains, smaller, i, j);
        let prev = parent_scan(contains, smaller, i, j);
        if let Some(p) = parent_scan(contains, smaller, i, upto) {
            assert forall|k: int| 0 <= k < upto && k != i && #[trigger] contains[i][k] implies !smaller[k][p as int] by {
                if k == p as int {
                } else if let Some(e) = prev {
                    if p as int == j && k < j {
                        assert(!smaller[k][e as int]);
                        if smaller[k][j] {
                            assert(smaller[j][e as int]);
                            assert(smaller[k][e as int]);
                        }
                    }
                }
            }
        }
    }
}

/// With areas strictly and totally ordered (of two different polygons one
/// is smaller), the parent chosen for `i` is smaller than every other
/// polygon that has `i` inside: it is the most immediate enclosing polygon.
pub proof fn lemma_parent_most_immediate(contains: Seq<Seq<bool>>, smaller: Seq<Seq<bool>>, i: int, n: int)
    requires
        n <= usize::MAX,
        strict_order(smaller, n),
        forall|a: int, b: int| 0 <= a < n && 0 <= b < n && a != b ==> #[trigger] smaller[a][b] || smaller[b][a],
    ensures
        parent_scan(contains, smaller, i, n) matches Some(p) ==> forall|j: int|
            0 <= j < n && j != i && j != p && #[trigger] contains[i][j] ==> smaller[p as int][j],
{
    lemma_parent_smallest(contains, smaller, i, n);
    lemma_parent_scan(contains, smaller, i, n);
    if let Some(p) = parent_scan(contains, smaller, i, n) {
        assert forall|j: int| 0 <= j < n && j != i && j != p && #[trigger] contains[i][j] implies smaller[p as int][j] by {
            assert(!smaller[j][p as int]);
            assert(smaller[j][p as int] || smaller[p as int][j]);
        }
    }
}

/// Choose a parent for each polygon (see `parent_scan`).
pub fn choose_parents(contains: &Vec<Vec<bool>>, smaller: &Vec<Vec<bool>>) -> (parents: Vec<Option<usize>>)
    requires
        square_table(contains@, contains@.len()),
        square_table(smaller@, contains@.len()),
    ensures
        parents@.len() == contains@.len(),
        forall|i: int| 0 <= i < parents@.len() ==>
            #[trigger] parents@[i] == parent_scan(table_view(contains@), table_view(smaller@), i, contains@.len() as int),
{
    let n = contains.len();
    let ghost c = table_view(contains@);
    let ghost sm = table_view(smaller@);
    let mut parents: Vec<Option<usize>> = Vec::new();
    let mut i: usize = 0;
    while i < n
        invariant
            n == contains@.len(),
            square_table(contains@, n as nat),
            square_table(smaller@, n as nat),
            c == table_view(contains@),
            sm == table_view(smaller@),
            i <= n,
            parents@.len() == i,
            forall|t: int| 0 <= t < i ==> #[trigger] parents@[t] == parent_scan(c, sm, t, n as int),
        decreases n - i,
    {
        let mut best: Option<usize> = None;
        let mut j: usize = 0;
        while j < n
            invariant
                n == contains@.len(),
                square_table(contains@, n as nat),
                square_table(smaller@, n as nat),
                c == table_view(contains@),
                sm == table_view(smaller@),
                i < n,
                j <= n,
                best == parent_scan(c, sm, i as int, j as int),
                best matches Some(e) ==> e < n,
            decreases n - j,
        {
            proof {
                lemma_parent_scan(c, sm, i as int, j as int);
                assert(c[i as int] == contains@[i as int]@);
            }
            if j != i && contains[i][j] {
                match best {
                    Some(e) => {
                        assert(sm[j as int] == smaller@[j as int]@);
                        if smaller[j][e] {
                            best = Some(j);
                        }
                    },
                    None => {
                        best = Some(j);
                    },
                }
            }
            j = j + 1;
        }
        parents.push(best);
        i = i + 1;
    }
    parents
}

/// The indices of the polygons that are not holes, in order.
pub open spec fn root_indices(parents: Seq<Option<usize>>) -> Seq<int>
    decreases parents.len(),
{
    if parents.len() == 0 {
        Seq::empty()
    } else {
        let prev = root_indices(parents.drop_last());
        if parents.last() is None {
            prev.push(parents.len() - 1)
        } else {
            prev
        }
    }
}

/// The indices of the polygons whose parent is `j`, in order.
pub open spec fn hole_indices(parents: Seq<Option<usize>>, j: int) -> Seq<int>
    decreases parents.len(),
{
    if parents.len() == 0 {
        Seq::empty()
    } else {
        let prev = hole_indices(parents.drop_last(), j);
        if parents.last() matches Some(p) && p == j {
            prev.push(parents.len() - 1)
        } else {
            prev
        }
    }
}

/// Every parent names a polygon of the list.
pub open spec fn parents_in_range(parents: Seq<Option<usize>>) -> bool {
    forall|i: int| 0 <= i < parents.len() ==> (#[trigger] parents[i] matches Some(p) ==> p < parents.len())
}

/// `out` is polygon `i` of `polygons` with the outer rings of the polygons
/// whose parent is `i` as its holes.
pub open spec fn attached<T>(polygons: Seq<Polygon<T>>, parents: Seq<Option<usize>>, i: int, out: Polygon<T>) -> bool {
    &&& out.outer@ == polygons[i].outer@
    &&& out.id == polygons[i].id
    &&& hole_rings(&out) == hole_indices(parents, i).map_values(|h: int| polygons[h].outer@)
}

/// The positions listed by `root_indices` are exactly the polygons that are
/// not holes, each once and in increasing order.
pub proof fn lemma_root_indices(parents: Seq<Option<usize>>)
    ensures
        forall|k: int| 0 <= k < root_indices(parents).len() ==>
            0 <= #[trigger] root_indices(parents)[k] < parents.len() && parents[root_indices(parents)[k]] is None,
        forall|k1: int, k2: int| 0 <= k1 < k2 < root_indices(parents).len() ==>
            #[trigger] root_indices(parents)[k1] < #[trigger] root_indices(parents)[k2],
        forall|i: int| 0 <= i < parents.len() && #[trigger] parents[i] is None ==>
            exists|k: int| 0 <= k < root_indices(parents).len() && root_indices(parents)[k] == i,
    decreases parents.len(),
{
    if parents.len() > 0 {
        let prev = parents.drop_last();
        lemma_root_indices(prev);
        assert forall|i: int| 0 <= i < parents.len() && #[trigger] parents[i] is None implies
            exists|k: int| 0 <= k < root_indices(parents).len() && root_indices(parents)[k] == i by {
            if i < parents.len() - 1 {
                assert(prev[i] is None);
                let k = choose|k: int| 0 <= k < root_indices(prev).len() && root_indices(prev)[k] == i;
                assert(root_indices(parents)[k] == i);
            } else {
                assert(root_indices(parents)[root_indices(prev).len() as int] == i);
            }
        }
    }
}

/// The positions listed by `hole_indices` are exactly the polygons whose
/// parent is `j`, each once and in increasing order.
pub proof fn lemma_hole_indices(parents: Seq<Option<usize>>, j: int)
    ensures
        forall|t: int| 0 <= t < hole_indices(parents, j).len() ==>
            0 <= #[trigger] hole_indices(parents, j)[t] < parents.len()
                && (parents[hole_indices(parents, j)[t]] matches Some(p) && p == j),
        forall|t1: int, t2: int| 0 <= t1 < t2 < hole_indices(parents, j).len() ==>
            #[trigger] hole_indices(parents, j)[t1] < #[trigger] hole_indices(parents, j)[t2],
        forall|i: int| 0 <= i < parents.len() && (#[trigger] parents[i] matches Some(p) && p == j) ==>
            exists|t: int| 0 <= t < hole_indices(parents, j).len() && hole_indices(parents, j)[t] == i,
    decreases parents.len(),
{
    if parents.len() > 0 {
        let prev = parents.drop_last();
        lemma_hole_indices(prev, j);
        assert forall|i: int| 0 <= i < parents.len() && (#[trigger] parents[i] matches Some(p) && p == j) implies
            exists|t: int| 0 <= t < hole_indices(parents, j).len() && hole_indices(parents, j)[t] == i by {
            if i < parents.len() - 1 {
                assert(prev[i] == parents[i]);
                let t = choose|t: int| 0 <= t < hole_indices(prev, j).len() && hole_indices(prev, j)[t] == i;
                assert(hole_indices(parents, j)[t] == i);
            } else {
                assert(hole_indices(parents, j)[hole_indices(prev, j).len() as int] == i);
            }
        }
    }
}

/// A copy of a ring.
fn copy_ring<T: Copy>(ring: &Vec<Point<T>>) -> (r: Vec<Point<T>>)
    ensures
        r@ == ring@,
{
    let mut r: Vec<Point<T>> = Vec::new();
    let mut k: usize = 0;
    while k < ring.len()
        invariant
            k <= ring@.len(),
            r@ =~= ring@.take(k as int),
        decreases ring@.len() - k,
    {
        r.push(ring[k]);
        k = k + 1;
    }
    r
}

/// Move each polygon that has a parent into its parent's holes.
///
/// The result holds, in order, the polygons without a parent; each keeps
/// its outer ring and identifier and gets as holes the outer rings of the
/// polygons whose parent it is, in their order.
pub fn attach_holes<T: Copy>(polygons: Vec<Polygon<T>>, parents: &Vec<Option<usize>>) -> (res: Vec<Polygon<T>>)
    requires
        parents@.len() == polygons@.len(),
        parents_in_range(parents@),
    ensures
        res@.len() == root_indices(parents@).len(),
        forall|k: int| 0 <= k < res@.len() ==>
            #[trigger] attached(polygons@, parents@, root_indices(parents@)[k], res@[k]),
{
    let n = polygons.len();
    let ghost outers = polygons@.map_values(|p: Polygon<T>| p.outer@);
    let mut holes_for: Vec<Vec<Vec<Point<T>>>> = Vec::new();
    let mut j: usize = 0;
    while j < n
        invariant
            j <= n,
            holes_for@.len() == j,
            forall|t: int| 0 <= t < j ==> (#[trigger] holes_for@[t])@.len() == 0,
        decreases n - j,
    {
        holes_for.push(Vec::new());
        j = j + 1;
    }
    let mut i: usize = 0;
    while i < n
        invariant
            n == polygons@.len(),
            n == parents@.len(),
            parents_in_range(parents@),
            outers == polygons@.map_values(|p: Polygon<T>| p.outer@),
            i <= n,
            holes_for@.len() == n,
            forall|t: int| 0 <= t < n ==>
                (#[trigger] holes_for@[t])@.map_values(|h: Vec<Point<T>>| h@)
                    == hole_indices(parents@.take(i as int), t).map_values(|h: int| outers[h]),
        decreases n - i,
    {
        let ghost before = holes_for@;
        proof {
            assert(parents@.take(i as int + 1).drop_last() =~= parents@.take(i as int));
            assert(parents@.take(i as int + 1).last() == parents@[i as int]);
        }
        match parents[i] {
            Some(p) => {
                assert(parents@[i as int] matches Some(q) && q < n);
                let ring = copy_ring(&polygons[i].outer);
                holes_for[p].push(ring);
                proof {
                    assert forall|t: int| 0 <= t < n implies
                        (#[trigger] holes_for@[t])@.map_values(|h: Vec<Point<T>>| h@)
                            == hole_indices(parents@.take(i as int + 1), t).map_values(|h: int| outers[h]) by {
                        if t == p {
                            assert(holes_for@[t]@ == before[t]@.push(ring));
                            assert(holes_for@[t]@.map_values(|h: Vec<Point<T>>| h@)
                                =~= before[t]@.map_values(|h: Vec<Point<T>>| h@).push(ring@));
                            assert(hole_indices(parents@.take(i as int + 1), t).map_values(|h: int| outers[h])
                                =~= hole_indices(parents@.take(i as int), t).map_values(|h: int| outers[h]).push(outers[i as int]));
                        } else {
                            assert(holes_for@[t] == before[t]);
                        }
                    }
                }
            },
            None => {},
        }
        i = i + 1;
    }
    assert(parents@.take(n as int) =~= parents@);
    let ghost holes_view = holes_for@;
    let mut res: Vec<Polygon<T>> = Vec::new();
    let mut idx: usize = 0;
    for polygon in it: polygons.into_iter()
        invariant
            n == parents@.len(),
            n == polygons@.len(),
            it.seq() == polygons@,
            holes_for@.len() == n,
            forall|t: int| idx <= t < n ==>
                (#[trigger] holes_for@[t])@.map_values(|h: Vec<Point<T>>| h@)
                    == hole_indices(parents@, t).map_values(|h: int| outers[h]),
            outers == polygons@.map_values(|p: Polygon<T>| p.outer@),
            idx == it.index(),
            res@.len() == root_indices(parents@.take(idx as int)).len(),
            forall|k: int| 0 <= k < res@.len() ==>
                #[trigger] attached(polygons@, parents@, root_indices(parents@.take(idx as int))[k], res@[k]),
    {
        proof {
            assert(parents@.take(idx as int + 1).drop_last() =~= parents@.take(idx as int));
        }
        if parents[idx].is_none() {
            let ghost collected = holes_for@[idx as int]@;
            let mut holes: Vec<Vec<Point<T>>> = Vec::new();
            std::mem::swap(&mut holes, &mut holes_for[idx]);
            let ghost roots = root_indices(parents@.take(idx as int));
            let out = Polygon { outer: polygon.outer, holes, id: polygon.id };
            proof {
                assert(polygon == polygons@[idx as int]);
                assert(holes@ == collected);
                lemma_hole_indices(parents@, idx as int);
                let hi = hole_indices(parents@, idx as int);
                assert(hi.map_values(|h: int| outers[h]) =~= hi.map_values(|h: int| polygons@[h].outer@));
                assert(hole_rings(&out) =~= hi.map_values(|h: int| polygons@[h].outer@));
            }
            res.push(out);
            proof {
                assert(root_indices(parents@.take(idx as int + 1)) == roots.push(idx as int));
                assert forall|k: int| 0 <= k < res@.len() implies
                    #[trigger] attached(polygons@, parents@, root_indices(parents@.take(idx as int + 1))[k], res@[k]) by {
                    if k < res@.len() - 1 {
                        assert(attached(polygons@, parents@, roots[k], res@[k]));
                    }
                }
            }
        }
        idx = idx + 1;
    }
    proof {
        assert(parents@.take(idx as int) =~= parents@);
    }
    res
}

/// The parent chosen for each polygon (see `parent_scan`).
pub open spec fn chosen_parents(contains: Seq<Vec<bool>>, smaller: Seq<Vec<bool>>) -> Seq<Option<usize>> {
    Seq::new(contains.len(), |i: int| parent_scan(table_view(contains), table_view(smaller), i, contains.len() as int))
}

/// Assemble holes into their outer polygons.
///
/// `contains` and `smaller` are the relations described at `parent_scan`,
/// computed by the caller from the polygons' coordinates. A list of at most
/// one polygon is returned as it is. Otherwise each polygon gets its parent
/// by `parent_scan`; the polygons with a parent become holes of it and the
/// others are returned, in order, with those holes attached.
pub fn assemble_holes<T: Copy>(polygons: Vec<Polygon<T>>, contains: &Vec<Vec<bool>>, smaller: &Vec<Vec<bool>>) -> (res: Vec<Polygon<T>>)
    requires
        square_table(contains@, polygons@.len()),
        square_table(smaller@, polygons@.len()),
    ensures
        polygons@.len() <= 1 ==> res@ == polygons@,
        polygons@.len() > 1 ==> {
            let parents = chosen_parents(contains@, smaller@);
            &&& res@.len() == root_indices(parents).len()
            &&& forall|k: int| 0 <= k < res@.len() ==>
                #[trigger] attached(polygons@, parents, root_indices(parents)[k], res@[k])
        },
{
    if polygons.len() <= 1 {
        return polygons;
    }
    let parents = choose_parents(contains, smaller);
    proof {
        let n = contains@.len() as int;
        assert(parents@ =~= chosen_parents(contains@, smaller@));
        assert forall|i: int| 0 <= i < parents@.len() implies
            (#[trigger] parents@[i] matches Some(p) ==> p < parents@.len()) by {
            lemma_parent_scan(table_view(contains@), table_view(smaller@), i, n);
        }
    }
    attach_holes(polygons, &parents)
}

/// When no polygon's parent is itself a hole, assembling keeps every input
/// ring exactly once: a polygon without a parent is the outer ring of
/// exactly one output polygon and a hole of none, and a polygon with a
/// parent is a hole of the output polygon made from its parent, at exactly
/// one position, and of no other, and no output polygon is made from it.
pub proof fn lemma_every_ring_kept_once(parents: Seq<Option<usize>>, i: int)
    requires
        parents_in_range(parents),
        forall|h: int| 0 <= h < parents.len() ==>
            (#[trigger] parents[h] matches Some(p) ==> parents[p as int] is None),
        0 <= i < parents.len(),
    ensures
        parents[i] is None ==> {
            &&& exists|k: int| 0 <= k < root_indices(parents).len() && root_indices(parents)[k] == i
            &&& forall|k1: int, k2: int|
                0 <= k1 < root_indices(parents).len() && 0 <= k2 < root_indices(parents).len()
                    && #[trigger] root_indices(parents)[k1] == i && #[trigger] root_indices(parents)[k2] == i
                    ==> k1 == k2
            &&& forall|j: int, t: int| 0 <= t < hole_indices(parents, j).len() ==> #[trigger] hole_indices(parents, j)[t] != i
        },
        parents[i] matches Some(p) ==> {
            &&& exists|k: int| 0 <= k < root_indices(parents).len() && root_indices(parents)[k] == p
            &&& exists|t: int| 0 <= t < hole_indices(parents, p as int).len() && hole_indices(parents, p as int)[t] == i
            &&& forall|t1: int, t2: int|
                0 <= t1 < hole_indices(parents, p as int).len() && 0 <= t2 < hole_indices(parents, p as int).len()
                    && #[trigger] hole_indices(parents, p as int)[t1] == i && #[trigger] hole_indices(parents, p as int)[t2] == i
                    ==> t1 == t2
            &&& forall|j: int, t: int| j != p && 0 <= t < hole_indices(parents, j).len() ==> #[trigger] hole_indices(parents, j)[t] != i
            &&& forall|k: int| 0 <= k < root_indices(parents).len() ==> #[trigger] root_indices(parents)[k] != i
        },
{
    lemma_root_indices(parents);
    match parents[i] {
        Some(p) => {
            lemma_hole_indices(parents, p as int);
            assert forall|j: int, t: int| j != p && 0 <= t < hole_indices(parents, j).len() implies
                #[trigger] hole_indices(parents, j)[t] != i by {
                lemma_hole_indices(parents, j);
            }
            assert forall|t1: int, t2: int|
                0 <= t1 < hole_indices(parents, p as int).len() && 0 <= t2 < hole_indices(parents, p as int).len()
                    && #[trigger] hole_indices(parents, p as int)[t1] == i && #[trigger] hole_indices(parents, p as int)[t2] == i
                    implies t1 == t2 by {
                if t1 < t2 {
                    assert(hole_indices(parents, p as int)[t1] < hole_indices(parents, p as int)[t2]);
                } else if t2 < t1 {
                    assert(hole_indices(parents, p as int)[t2] < hole_indices(parents, p as int)[t1]);
                }
            }
            assert(parents[p as int] is None);
            assert(p < parents.len());
            assert forall|k1: int, k2: int| 0 <= k1 < k2 < root_indices(parents).len() implies
                root_indices(parents)[k1] != root_indices(parents)[k2] by {}
        },
        None => {
            assert forall|j: int, t: int| 0 <= t < hole_indices(parents, j).len() implies
                #[trigger] hole_indices(parents, j)[t] != i by {
                lemma_hole_indices(parents, j);
            }
            assert forall|k1: int, k2: int|
                0 <= k1 < root_indices(parents).len() && 0 <= k2 < root_indices(parents).len()
                    && #[trigger] root_indices(parents)[k1] == i && #[trigger] root_indices(parents)[k2] == i
                    implies k1 == k2 by {
                if k1 < k2 {
                    assert(root_indices(parents)[k1] < root_indices(parents)[k2]);
                } else if k2 < k1 {
                    assert(root_indices(parents)[k2] < root_indices(parents)[k1]);
                }
            }
        },
    }
}

} // verus!
