//! Hilbert space-filling curve on a square grid.
//!
//! The curve of order `k` visits every cell of the `2^k` by `2^k` grid
//! exactly once, moving between edge-adjacent cells.
use vstd::prelude::*;
use vstd::arithmetic::div_mod::{
    lemma_div_denominator, lemma_fundamental_div_mod_converse, lemma_mod_breakdown, lemma_small_mod,
};
use vstd::arithmetic::power2::{lemma2_to64, lemma_pow2_unfold, pow2};
use vstd::bits::lemma_usize_shl_is_mul;

verus! {

/// Side length of the grid of order `k`: `2^k`.
pub open spec fn side(k: nat) -> nat
    decreases k,
{
    if k == 0 {
        1
    } else {
        2 * side((k - 1) as nat)
    }
}

/// Number of cells in the grid of order `k`: `4^k`.
pub open spec fn quad(k: nat) -> nat
    decreases k,
{
    if k == 0 {
        1
    } else {
        4 * quad((k - 1) as nat)
    }
}

/// The order of the smallest grid whose side is at least `n`.
pub open spec fn grid_order(n: nat) -> nat
    decreases n,
{
    if n <= 1 {
        0
    } else {
        1 + grid_order(((n + 1) / 2) as nat)
    }
}

/// Place cell `c` of a sub-grid of side `s` into quadrant `q` of the grid of
/// side `2s`. Quadrant 0 (lower left) is mirrored across the diagonal,
/// quadrants 1 (upper left) and 2 (upper right) are translated, and
/// quadrant 3 (lower right) is mirrored across the anti-diagonal.
pub open spec fn place(q: nat, s: nat, c: (nat, nat)) -> (nat, nat) {
    if q == 0 {
        (c.1, c.0)
    } else if q == 1 {
        (c.0, c.1 + s)
    } else if q == 2 {
        (c.0 + s, c.1 + s)
    } else {
        ((2 * s - 1 - c.1) as nat, (s - 1 - c.0) as nat)
    }
}

/// The cell visited at step `d` of the Hilbert curve of order `k`: the
/// leading base-4 digit of `d` picks the quadrant, and the remaining digits
/// the cell of the curve of order `k - 1` placed there.
pub open spec fn hilbert_cell(k: nat, d: nat) -> (nat, nat)
    decreases k,
{
    if k == 0 {
        (0, 0)
    } else {
        let j = (k - 1) as nat;
        place((d / quad(j)) % 4, side(j), hilbert_cell(j, d % quad(j)))
    }
}

/// Two cells share an edge.
pub open spec fn adjacent(a: (nat, nat), b: (nat, nat)) -> bool {
    ||| a.0 == b.0 && (a.1 + 1 == b.1 || b.1 + 1 == a.1)
    ||| a.1 == b.1 && (a.0 + 1 == b.0 || b.0 + 1 == a.0)
}

/// Sides and cell counts are positive, and a grid has side squared cells.
pub proof fn lemma_side_pos(k: nat)
    ensures
        side(k) >= 1,
        quad(k) >= 1,
        quad(k) == side(k) * side(k),
    decreases k,
{
    if k > 0 {
        lemma_side_pos((k - 1) as nat);
        let s = side((k - 1) as nat);
        assert(2 * s * (2 * s) == 4 * (s * s)) by (nonlinear_arith);
    }
}

/// `side(k) >= n` holds exactly from `grid_order(n)` on.
pub proof fn lemma_grid_order(n: nat, k: nat)
    ensures
        side(k) >= n <==> k >= grid_order(n),
    decreases n, k,
{
    lemma_side_pos(k);
    if n <= 1 {
    } else if k == 0 {
    } else {
        let h = ((n + 1) / 2) as nat;
        lemma_grid_order(h, (k - 1) as nat);
    }
}

/// The order of a grid of side `2^k` is `k`.
pub proof fn lemma_grid_order_side(k: nat)
    ensures
        grid_order(side(k)) == k,
{
    lemma_grid_order(side(k), k);
    if k > 0 {
        lemma_grid_order(side(k), (k - 1) as nat);
        lemma_side_pos((k - 1) as nat);
    }
}

/// Stepping one order up: the cell at step `d` of the curve of order
/// `j + 1` comes from the cell at step `d mod 4^j` of order `j`, placed by
/// the next base-4 digit of `d`.
proof fn lemma_hilbert_unfold(j: nat, d: nat)
    ensures
        quad(j + 1) == quad(j) * 4,
        d / quad(j + 1) == (d / quad(j)) / 4,
        hilbert_cell(j + 1, d % quad(j + 1))
            == place((d / quad(j)) % 4, side(j), hilbert_cell(j, d % quad(j))),
{
    lemma_side_pos(j);
    let qj = quad(j) as int;
    let m = d % quad(j + 1);
    assert(quad(j + 1) == qj * 4);
    lemma_mod_breakdown(d as int, qj, 4);
    lemma_div_denominator(d as int, qj, 4);
    let hi = (d as int / qj) % 4;
    let lo = d as int % qj;
    lemma_fundamental_div_mod_converse(m as int, qj, hi, lo);
    lemma_small_mod(hi as nat, 4);
    assert(hilbert_cell(j + 1, m) == place((m / quad(j)) % 4, side(j), hilbert_cell(j, m % quad(j))));
}

/// Cells placed by `place` stay inside the doubled grid.
proof fn lemma_place_bounds(q: nat, s: nat, c: (nat, nat))
    requires
        c.0 < s,
        c.1 < s,
    ensures
        place(q, s, c).0 < 2 * s,
        place(q, s, c).1 < 2 * s,
{
}

/// Every step of the curve of order `k` lands inside the `2^k` grid.
pub proof fn lemma_hilbert_in_grid(k: nat, d: nat)
    ensures
        hilbert_cell(k, d).0 < side(k),
        hilbert_cell(k, d).1 < side(k),
    decreases k,
{
    if k > 0 {
        let j = (k - 1) as nat;
        lemma_hilbert_in_grid(j, d % quad(j));
        lemma_place_bounds((d / quad(j)) % 4, side(j), hilbert_cell(j, d % quad(j)));
        assert(side(k) == 2 * side(j));
        assert(k == j + 1);
        lemma_side_pos(j);
        assert(hilbert_cell(j + 1, d) == place((d / quad(j)) % 4, side(j), hilbert_cell(j, d % quad(j))));
    }
}

/// A step written as a quadrant digit and a step inside that quadrant.
proof fn lemma_compose(j: nat, q: nat, r: nat)
    requires
        q < 4,
        r < quad(j),
    ensures
        q * quad(j) + r < quad(j + 1),
        (q * quad(j) + r) / quad(j) == q,
        (q * quad(j) + r) % quad(j) == r,
        hilbert_cell(j + 1, q * quad(j) + r) == place(q, side(j), hilbert_cell(j, r)),
{
    lemma_side_pos(j);
    let d = q * quad(j) + r;
    lemma_fundamental_div_mod_converse(d as int, quad(j) as int, q as int, r as int);
    lemma_small_mod(q, 4);
    assert(q * quad(j) + r < 4 * quad(j)) by (nonlinear_arith)
        requires
            q < 4,
            r < quad(j),
    ;
    assert(hilbert_cell(j + 1, d) == place((d / quad(j)) % 4, side(j), hilbert_cell(j, d % quad(j))));
}

/// A step below `4^(j+1)` splits into a quadrant digit and a step inside
/// that quadrant.
proof fn lemma_split(j: nat, d: nat)
    requires
        d < quad(j + 1),
    ensures
        d / quad(j) < 4,
        d % quad(j) < quad(j),
        d == (d / quad(j)) * quad(j) + d % quad(j),
{
    lemma_side_pos(j);
    let q = d / quad(j);
    let r = d % quad(j);
    assert(d == q * quad(j) + r && r < quad(j)) by (nonlinear_arith)
        requires
            quad(j) >= 1,
            q == d / quad(j),
            r == d % quad(j),
    ;
    if q >= 4 {
        assert(q * quad(j) >= 4 * quad(j)) by (nonlinear_arith)
            requires
                q >= 4,
                quad(j) >= 1,
        ;
    }
}

/// The curve visits distinct cells at distinct steps.
pub proof fn lemma_hilbert_injective(k: nat, d1: nat, d2: nat)
    requires
        d1 < quad(k),
        d2 < quad(k),
        d1 != d2,
    ensures
        hilbert_cell(k, d1) != hilbert_cell(k, d2),
    decreases k,
{
    if k > 0 {
        let j = (k - 1) as nat;
        lemma_split(j, d1);
        lemma_split(j, d2);
        let q1 = d1 / quad(j);
        let q2 = d2 / quad(j);
        let r1 = d1 % quad(j);
        let r2 = d2 % quad(j);
        lemma_compose(j, q1, r1);
        lemma_compose(j, q2, r2);
        lemma_hilbert_in_grid(j, r1);
        lemma_hilbert_in_grid(j, r2);
        if q1 == q2 {
            lemma_hilbert_injective(j, r1, r2);
        }
    }
}

/// Every cell of the `2^k` grid is visited at some step below `4^k`.
pub proof fn lemma_hilbert_onto(k: nat, x: nat, y: nat) -> (d: nat)
    requires
        x < side(k),
        y < side(k),
    ensures
        d < quad(k),
        hilbert_cell(k, d) == (x, y),
    decreases k,
{
    if k == 0 {
        0
    } else {
        let j = (k - 1) as nat;
        let s = side(j);
        lemma_side_pos(j);
        let (q, cx, cy) = if x < s && y < s {
            (0nat, y, x)
        } else if x < s {
            (1nat, x, (y - s) as nat)
        } else if y >= s {
            (2nat, (x - s) as nat, (y - s) as nat)
        } else {
            (3nat, (s - 1 - y) as nat, (2 * s - 1 - x) as nat)
        };
        let r = lemma_hilbert_onto(j, cx, cy);
        lemma_compose(j, q, r);
        q * quad(j) + r
    }
}

/// The curve of order `k` starts in the corner `(0, 0)` and ends in the
/// corner `(2^k - 1, 0)`.
pub proof fn lemma_hilbert_ends(k: nat)
    ensures
        quad(k) >= 1,
        hilbert_cell(k, 0) == (0nat, 0nat),
        hilbert_cell(k, (quad(k) - 1) as nat) == ((side(k) - 1) as nat, 0nat),
    decreases k,
{
    lemma_side_pos(k);
    if k > 0 {
        let j = (k - 1) as nat;
        lemma_hilbert_ends(j);
        lemma_compose(j, 0, 0);
        lemma_compose(j, 3, (quad(j) - 1) as nat);
        assert(3 * quad(j) + (quad(j) - 1) == quad(k) - 1);
    }
}

/// Placing two edge-adjacent cells into the same quadrant keeps them
/// edge-adjacent.
proof fn lemma_place_adjacent(q: nat, s: nat, a: (nat, nat), b: (nat, nat))
    requires
        q < 4,
        a.0 < s,
        a.1 < s,
        b.0 < s,
        b.1 < s,
        adjacent(a, b),
    ensures
        adjacent(place(q, s, a), place(q, s, b)),
{
}

/// Consecutive steps of the curve visit edge-adjacent cells.
pub proof fn lemma_hilbert_adjacent(k: nat, d: nat)
    requires
        d + 1 < quad(k),
    ensures
        adjacent(hilbert_cell(k, d), hilbert_cell(k, d + 1)),
    decreases k,
{
    if k > 0 {
        let j = (k - 1) as nat;
        lemma_split(j, d);
        lemma_split(j, d + 1);
        let q = d / quad(j);
        let r = d % quad(j);
        lemma_compose(j, q, r);
        lemma_hilbert_in_grid(j, r);
        if r + 1 < quad(j) {
            lemma_compose(j, q, r + 1);
            assert(d + 1 == q * quad(j) + (r + 1));
            lemma_hilbert_in_grid(j, r + 1);
            lemma_hilbert_adjacent(j, r);
            lemma_place_adjacent(q, side(j), hilbert_cell(j, r), hilbert_cell(j, r + 1));
        } else {
            assert(d + 1 == (q + 1) * quad(j) + 0) by (nonlinear_arith)
                requires
                    d == q * quad(j) + r,
                    r + 1 == quad(j),
            ;
            if q + 1 >= 4 {
                assert((q + 1) * quad(j) >= 4 * quad(j)) by (nonlinear_arith)
                    requires
                        q + 1 >= 4,
                ;
            }
            lemma_compose(j, q + 1, 0);
            lemma_hilbert_ends(j);
            lemma_side_pos(j);
        }
    }
}

/// Convert a distance along the Hilbert curve to `(x, y)` grid coordinates.
///
/// The grid is the smallest one of side `2^k >= n`; only the low `2k`
/// bits of `d` (its position modulo `4^k`) matter.
pub fn d2xy(n: usize, d: usize) -> (r: (usize, usize))
    requires
        n <= usize::MAX / 2 + 1,
    ensures
        (r.0 as nat, r.1 as nat) == hilbert_cell(grid_order(n as nat), d as nat % quad(grid_order(n as nat))),
        r.0 < side(grid_order(n as nat)),
        r.1 < side(grid_order(n as nat)),
{
    let mut x: usize = 0;
    let mut y: usize = 0;
    let mut d_rest = d;
    let mut s: usize = 1;
    let ghost mut j: nat = 0;
    assert(quad(0) == 1 && side(0) == 1);
    assert(d as nat / 1 == d as nat && d as nat % 1 == 0) by (nonlinear_arith);
    proof {
        lemma_grid_order(n as nat, 0);
    }

    while s < n
        invariant
            n <= usize::MAX / 2 + 1,
            s as nat == side(j),
            d_rest as nat == d as nat / quad(j),
            (x as nat, y as nat) == hilbert_cell(j, d as nat % quad(j)),
            x < s,
            y < s,
            side(j) < n ==> j < grid_order(n as nat),
            j <= grid_order(n as nat),
        decreases grid_order(n as nat) - j,
    {
        let ghost old_x = x;
        let ghost old_y = y;
        let ghost old_d = d_rest;
        proof {
            lemma_hilbert_unfold(j, d as nat);
            lemma_mod_breakdown(d_rest as int, 2, 2);
            lemma_grid_order(n as nat, j + 1);
            lemma_side_pos(j);
        }
        let rx: usize = 1 & (d_rest / 2);
        assert((1usize & (old_d / 2)) == (old_d / 2) % 2) by (bit_vector);
        let ry: usize = 1 & (d_rest ^ rx);
        assert(rx <= 1 ==> (1usize & (old_d ^ rx)) == (if old_d % 2 == rx { 0usize } else { 1usize })) by (bit_vector);

        if ry == 0 {
            if rx == 1 {
                x = s - 1 - x;
                y = s - 1 - y;
            }
            let t = x;
            x = y;
            y = t;
        }

        assert(s * rx <= s && s * ry <= s) by (nonlinear_arith)
            requires
                rx <= 1,
                ry <= 1,
        ;
        x = x + s * rx;
        y = y + s * ry;
        d_rest = d_rest / 4;
        s = s * 2;
        proof {
            j = j + 1;
        }
    }
    proof {
        lemma_grid_order(n as nat, j);
    }
    (x, y)
}

/// `side(k)` is `2^k`.
pub proof fn lemma_side_pow2(k: nat)
    ensures
        side(k) == pow2(k),
    decreases k,
{
    if k == 0 {
        lemma2_to64();
    } else {
        lemma_side_pow2((k - 1) as nat);
        lemma_pow2_unfold(k);
    }
}

/// Generate the Hilbert curve of order `depth` as grid coordinates.
///
/// Returns the `4^depth` cells `(x, y)`, `0 <= x, y < 2^depth`, in the
/// order the curve visits them.
pub fn hilbert_points(depth: usize) -> (points: Vec<(usize, usize)>)
    requires
        side(depth as nat) * side(depth as nat) <= usize::MAX,
    ensures
        points@.len() == quad(depth as nat),
        forall|i: int| 0 <= i < points@.len() ==>
            (#[trigger] points@[i].0 as nat, points@[i].1 as nat) == hilbert_cell(depth as nat, i as nat),
{
    proof {
        lemma_side_pos(depth as nat);
        lemma_side_pow2(depth as nat);
        assert(side(depth as nat) * side(depth as nat) >= side(depth as nat)) by (nonlinear_arith)
            requires
                side(depth as nat) >= 1,
        ;
        if depth >= usize::BITS {
            lemma_grid_order(side(usize::BITS as nat), depth as nat);
            lemma_grid_order_side(usize::BITS as nat);
            lemma_side_pow2(usize::BITS as nat);
            lemma2_to64();
            assert(usize::BITS == 32 || usize::BITS == 64);
            assert(pow2(usize::BITS as nat) > usize::MAX);
            assert(false);
        }
        lemma_usize_shl_is_mul(1, depth);
    }
    let n: usize = 1 << depth;
    assert(n as nat == side(depth as nat));
    let total = n * n;
    proof {
        lemma_grid_order_side(depth as nat);
        assert(n as nat <= usize::MAX / 2 + 1) by (nonlinear_arith)
            requires
                n * n <= usize::MAX,
                n >= 1,
        ;
    }
    let mut points: Vec<(usize, usize)> = Vec::new();
    let mut i: usize = 0;
    while i < total
        invariant
            total as nat == quad(depth as nat),
            n as nat == side(depth as nat),
            n as nat <= usize::MAX / 2 + 1,
            grid_order(n as nat) == depth as nat,
            i <= total,
            points@.len() == i,
            forall|t: int| 0 <= t < i ==>
                (#[trigger] points@[t].0 as nat, points@[t].1 as nat) == hilbert_cell(depth as nat, t as nat),
        decreases total - i,
    {
        let p = d2xy(n, i);
        proof {
            lemma_small_mod(i as nat, quad(depth as nat));
        }
        points.push(p);
        i = i + 1;
    }
    points
}

} // verus!
