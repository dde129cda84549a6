//! Polylines back to line segments.
use vstd::prelude::*;
use crate::geometry::{Chain, Line, Point, segment};

verus! {

/// The segments of one polyline: from each point to the next.
pub open spec fn polyline_segments<T>(c: Seq<Point<T>>) -> Seq<Line<T>> {
    if c.len() >= 1 {
        Seq::new((c.len() - 1) as nat, |i: int| segment(c[i], c[i + 1]))
    } else {
        Seq::empty()
    }
}

/// The segments of a list of polylines, polyline after polyline.
pub open spec fn chains_segments<T>(chains: Seq<Seq<Point<T>>>) -> Seq<Line<T>>
    decreases chains.len(),
{
    if chains.len() == 0 {
        Seq::empty()
    } else {
        chains_segments(chains.drop_last()) + polyline_segments(chains.last())
    }
}

/// The number of segments of a list of polylines: one less than the number
/// of points of each non-empty polyline.
pub open spec fn segment_count<T>(chains: Seq<Seq<Point<T>>>) -> nat
    decreases chains.len(),
{
    if chains.len() == 0 {
        0
    } else {
        segment_count(chains.drop_last()) + if chains.last().len() >= 1 {
            (chains.last().len() - 1) as nat
        } else {
            0
        }
    }
}

/// The views of the polylines.
pub open spec fn chain_views<T>(chains: Seq<Chain<T>>) -> Seq<Seq<Point<T>>> {
    chains.map_values(|c: Chain<T>| c@)
}

/// Converting polylines gives one segment per pair of consecutive points.
pub proof fn lemma_segment_count<T>(chains: Seq<Seq<Point<T>>>)
    ensures
        chains_segments(chains).len() == segment_count(chains),
    decreases chains.len(),
{
    if chains.len() > 0 {
        lemma_segment_count(chains.drop_last());
    }
}

/// Convert chains back to lines: each pair of consecutive points of each
/// chain becomes one line, in order.
pub fn chains_to_lines<T: Copy>(chains: &[Chain<T>]) -> (lines: Vec<Line<T>>)
    ensures
        lines@ == chains_segments(chain_views(chains@)),
{
    let ghost views = chain_views(chains@);
    let mut lines: Vec<Line<T>> = Vec::new();
    let mut k: usize = 0;
    while k < chains.len()
        invariant
            k <= chains@.len(),
            views == chain_views(chains@),
            lines@ =~= chains_segments(views.take(k as int)),
        decreases chains@.len() - k,
    {
        let chain = &chains[k];
        let ghost before = lines@;
        let n = chain.len();
        let mut i: usize = 1;
        while i < n
            invariant
                n == chain@.len(),
                (n == 0 && i == 1) || (1 <= i <= n),
                lines@ =~= before + polyline_segments(chain@).take(i as int - 1),
            decreases n - i,
        {
            let a = chain[i - 1];
            let b = chain[i];
            let ghost prev = lines@;
            lines.push(Line { x1: a.x, y1: a.y, x2: b.x, y2: b.y });
            proof {
                let segs = polyline_segments(chain@);
                assert(segs[i - 1] == segment(a, b));
                assert(segs.take(i as int) =~= segs.take(i - 1).push(segs[i - 1]));
            }
            i = i + 1;
        }
        proof {
            assert(before =~= chains_segments(views.take(k as int)));
            assert(lines@ =~= before + polyline_segments(chain@).take(i as int - 1));
            let segs = polyline_segments(chain@);
            if n >= 1 {
                assert(i == n);
                assert(segs.len() == n - 1);
                assert(segs.take(i as int - 1) =~= segs);
            } else {
                assert(i == 1);
                assert(segs.len() == 0);
                assert(segs.take(i as int - 1) =~= segs);
            }
            let t = views.take(k as int + 1);
            assert(t.drop_last() =~= views.take(k as int));
            assert(t.last() == chain@);
            assert(chains_segments(t) == chains_segments(t.drop_last()) + polyline_segments(t.last()));
            assert(lines@ =~= before + polyline_segments(chain@));
            assert(lines@ =~= chains_segments(t));
        }
        k = k + 1;
    }
    assert(views.take(k as int) =~= views);
    lines
}

/// The total number of points of a list of polylines.
pub open spec fn total_points<T>(chains: Seq<Seq<Point<T>>>) -> nat
    decreases chains.len(),
{
    if chains.len() == 0 {
        0
    } else {
        total_points(chains.drop_last()) + chains.last().len()
    }
}

/// The number of points of the longest polyline, zero for none.
pub open spec fn longest<T>(chains: Seq<Seq<Point<T>>>) -> nat
    decreases chains.len(),
{
    if chains.len() == 0 {
        0
    } else {
        let m = longest(chains.drop_last());
        if chains.last().len() > m { chains.last().len() } else { m }
    }
}

/// Counts over a list of polylines.
pub struct ChainCounts {
    pub chains: usize,
    pub points: u128,
    pub longest: usize,
}

proof fn lemma_longest_bound<T>(chains: Seq<Chain<T>>)
    ensures
        longest(chain_views(chains)) <= usize::MAX,
        total_points(chain_views(chains)) <= chains.len() * usize::MAX,
    decreases chains.len(),
{
    if chains.len() > 0 {
        let d = chains.drop_last();
        assert(chain_views(chains).drop_last() =~= chain_views(d));
        lemma_longest_bound(d);
        assert(chains.last().len() == chains.last()@.len());
        assert(d.len() * usize::MAX + usize::MAX == chains.len() * usize::MAX) by (nonlinear_arith)
            requires
                d.len() + 1 == chains.len(),
        ;
    }
}

/// The number of polylines, their total number of points, and the number
/// of points of the longest one.
pub fn chain_counts<T>(chains: &[Chain<T>]) -> (c: ChainCounts)
    ensures
        c.chains == chains@.len(),
        c.points == total_points(chain_views(chains@)),
        c.longest == longest(chain_views(chains@)),
{
    let ghost views = chain_views(chains@);
    let mut points: u128 = 0;
    let mut most: usize = 0;
    let mut k: usize = 0;
    while k < chains.len()
        invariant
            k <= chains@.len(),
            views == chain_views(chains@),
            points == total_points(views.take(k as int)),
            most == longest(views.take(k as int)),
        decreases chains@.len() - k,
    {
        proof {
            assert(views.take(k as int + 1).drop_last() =~= views.take(k as int));
            lemma_longest_bound(chains@.take(k as int));
            assert(chain_views(chains@.take(k as int)) =~= views.take(k as int));
            assert(k * usize::MAX <= usize::MAX * usize::MAX) by (nonlinear_arith)
                requires
                    k <= usize::MAX,
            ;
        }
        let n = chains[k].len();
        points = points + n as u128;
        if n > most {
            most = n;
        }
        k = k + 1;
    }
    assert(views.take(k as int) =~= views);
    ChainCounts { chains: chains.len(), points, longest: most }
}

} // verus!
