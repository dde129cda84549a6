//! Outline extraction used by the hand-drawn line effect.
use vstd::prelude::*;
use crate::geometry::{Line, Point, Polygon, segment};
use vstd::arithmetic::div_mod::{lemma_mod_self_0, lemma_small_mod};

verus! {

/// The closed edges of one ring: from each vertex to the next one, and from
/// the last vertex back to the first. Rings of fewer than two points have
/// no edges.
pub open spec fn ring_edges<T>(ring: Seq<Point<T>>) -> Seq<Line<T>> {
    if ring.len() >= 2 {
        Seq::new(ring.len(), |i: int| segment(ring[i], ring[(i + 1) % (ring.len() as int)]))
    } else {
        Seq::empty()
    }
}

/// The edges of a list of rings, ring after ring.
pub open spec fn rings_edges<T>(rings: Seq<Seq<Point<T>>>) -> Seq<Line<T>>
    decreases rings.len(),
{
    if rings.len() == 0 {
        Seq::empty()
    } else {
        rings_edges(rings.drop_last()) + ring_edges(rings.last())
    }
}

/// The views of the hole rings of a polygon.
pub open spec fn hole_rings<T>(polygon: &Polygon<T>) -> Seq<Seq<Point<T>>> {
    polygon.holes@.map_values(|h: Vec<Point<T>>| h@)
}

/// All edges of a polygon: the outer ring's, then each hole's.
pub open spec fn polygon_edges<T>(polygon: &Polygon<T>) -> Seq<Line<T>> {
    ring_edges(polygon.outer@) + rings_edges(hole_rings(polygon))
}

/// The edges of a ring of at least two points go round it once and close
/// up: there is one edge per point, edge `i` starts at point `i`, and each
/// edge ends where the next one (the first, after the last) starts.
pub proof fn lemma_ring_edges_closed<T>(ring: Seq<Point<T>>)
    requires
        ring.len() >= 2,
    ensures
        ring_edges(ring).len() == ring.len(),
        forall|i: int| 0 <= i < ring.len() ==> (#[trigger] ring_edges(ring)[i]).x1 == ring[i].x && ring_edges(ring)[i].y1 == ring[i].y,
        forall|i: int| 0 <= i < ring.len() ==> (#[trigger] ring_edges(ring)[i]).x2 == ring_edges(ring)[(i + 1) % (ring.len() as int)].x1
            && ring_edges(ring)[i].y2 == ring_edges(ring)[(i + 1) % (ring.len() as int)].y1,
{
    let n = ring.len() as int;
    assert forall|i: int| 0 <= i < n implies (#[trigger] ring_edges(ring)[i]).x2 == ring_edges(ring)[(i + 1) % n].x1
        && ring_edges(ring)[i].y2 == ring_edges(ring)[(i + 1) % n].y1 by {
        if i + 1 < n {
            lemma_small_mod((i + 1) as nat, n as nat);
        } else {
            lemma_mod_self_0(n);
        }
    }
}

/// Append the closed edges of `ring` to `lines`.
fn push_ring_edges<T: Copy>(ring: &Vec<Point<T>>, lines: &mut Vec<Line<T>>)
    ensures
        final(lines)@ == old(lines)@ + ring_edges(ring@),
{
    let n = ring.len();
    if n < 2 {
        assert(old(lines)@ + ring_edges(ring@) =~= old(lines)@);
        return;
    }
    let ghost start = lines@;
    let mut i: usize = 0;
    while i < n
        invariant
            n == ring@.len(),
            n >= 2,
            i <= n,
            lines@ =~= start + ring_edges(ring@).take(i as int),
        decreases n - i,
    {
        let p1 = ring[i];
        let j: usize = if i + 1 == n { 0 } else { i + 1 };
        proof {
            if i + 1 == n {
                lemma_mod_self_0(n as int);
            } else {
                lemma_small_mod((i + 1) as nat, n as nat);
            }
        }
        let p2 = ring[j];
        lines.push(Line { x1: p1.x, y1: p1.y, x2: p2.x, y2: p2.y });
        i = i + 1;
    }
    assert(ring_edges(ring@).take(n as int) =~= ring_edges(ring@));
}

/// Convert polygon outlines to line segments.
///
/// Extracts all edges of the outer boundary and then of each hole, in order;
/// every ring of at least two points is closed back to its first point.
pub fn polygon_to_lines<T: Copy>(polygon: &Polygon<T>) -> (lines: Vec<Line<T>>)
    ensures
        lines@ == polygon_edges(polygon),
{
    let mut lines: Vec<Line<T>> = Vec::new();
    push_ring_edges(&polygon.outer, &mut lines);
    let ghost rings = hole_rings(polygon);
    let mut k: usize = 0;
    while k < polygon.holes.len()
        invariant
            k <= polygon.holes@.len(),
            rings == hole_rings(polygon),
            lines@ =~= ring_edges(polygon.outer@) + rings_edges(rings.take(k as int)),
        decreases polygon.holes@.len() - k,
    {
        push_ring_edges(&polygon.holes[k], &mut lines);
        assert(rings.take(k as int + 1).drop_last() =~= rings.take(k as int));
        k = k + 1;
    }
    assert(rings.take(k as int) =~= rings);
    lines
}

} // verus!
