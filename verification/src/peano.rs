//! The Peano curve on a grid of side `3^k`.
//!
//! A block is cut into 3 by 3 sub-blocks, visited in an order that depends
//! on the block's orientation; each sub-block is then traversed the same way
//! with an orientation of its own. The curve here is given as the sequence
//! of unit cells it visits; scaling into the plane is the caller's.
use vstd::prelude::*;
use crate::lsystem::pow3;
use vstd::arithmetic::div_mod::lemma_fundamental_div_mod;

verus! {

/// The order in which the nine sub-blocks are visited, by orientation. A
/// sub-block `c` has column `c % 3` and row `c / 3`.
pub open spec fn order_table() -> Seq<Seq<u8>> {
    seq![
        seq![0u8, 1, 2, 5, 4, 3, 6, 7, 8],
        seq![0u8, 3, 6, 7, 4, 1, 2, 5, 8],
        seq![8u8, 7, 6, 3, 4, 5, 2, 1, 0],
        seq![8u8, 5, 2, 1, 4, 7, 6, 3, 0],
    ]
}

/// The orientation given to each visited sub-block, by orientation.
pub open spec fn orientation_table() -> Seq<Seq<u8>> {
    seq![
        seq![1u8, 0, 1, 0, 0, 0, 1, 0, 1],
        seq![0u8, 1, 0, 1, 1, 1, 0, 1, 0],
        seq![1u8, 0, 1, 0, 0, 0, 1, 0, 1],
        seq![0u8, 1, 0, 1, 1, 1, 0, 1, 0],
    ]
}

/// The position at which each sub-block is visited, by orientation: the
/// inverse of `order_table`.
pub open spec fn position_table() -> Seq<Seq<u8>> {
    seq![
        seq![0u8, 1, 2, 5, 4, 3, 6, 7, 8],
        seq![0u8, 5, 6, 1, 4, 7, 2, 3, 8],
        seq![8u8, 7, 6, 3, 4, 5, 2, 1, 0],
        seq![8u8, 3, 2, 7, 4, 1, 6, 5, 0],
    ]
}

/// The sub-block visited `i`-th under orientation `o`.
pub open spec fn visit(o: u8, i: nat) -> nat {
    order_table()[(o % 4) as int][i as int] as nat
}

/// The orientation of the sub-block visited `i`-th under orientation `o`.
pub open spec fn child_orientation(o: u8, i: nat) -> u8 {
    orientation_table()[(o % 4) as int][i as int]
}

/// The cells visited in a block of side `3^k` with corner `(x, y)` and
/// orientation `o`, from its `i`-th sub-block on (a block of side 1 is its
/// single cell).
pub open spec fn peano_part(k: nat, o: u8, x: nat, y: nat, i: nat) -> Seq<(nat, nat)>
    decreases k, 10 - i,
{
    if k == 0 {
        if i == 0 {
            seq![(x, y)]
        } else {
            Seq::empty()
        }
    } else if i >= 9 {
        Seq::empty()
    } else {
        let s = pow3((k - 1) as nat);
        let c = visit(o, i);
        peano_part((k - 1) as nat, child_orientation(o, i), x + (c % 3) * s, y + (c / 3) * s, 0)
            + peano_part(k, o, x, y, i + 1)
    }
}

/// The cells of the Peano curve through the block of side `3^k` with
/// corner `(x, y)` and orientation `o`, in visiting order.
pub open spec fn peano_cells(k: nat, o: u8, x: nat, y: nat) -> Seq<(nat, nat)> {
    peano_part(k, o, x, y, 0)
}

/// `p` lies in the square of side `size` with corner `(x, y)`.
pub open spec fn in_block(p: (nat, nat), x: nat, y: nat, size: nat) -> bool {
    x <= p.0 < x + size && y <= p.1 < y + size
}

/// `p` lies in the sub-block visited `j`-th in the block of side `3^k`
/// with corner `(x, y)` and orientation `o`.
pub open spec fn in_sub_block(k: nat, o: u8, x: nat, y: nat, j: nat, p: (nat, nat)) -> bool {
    let s = pow3((k - 1) as nat);
    in_block(p, x + (visit(o, j) % 3) * s, y + (visit(o, j) / 3) * s, s)
}

proof fn lemma_tables(r: int, j: int)
    requires
        0 <= r < 4,
        0 <= j < 9,
    ensures
        order_table()[r].len() == 9,
        orientation_table()[r].len() == 9,
        order_table()[r][j] < 9,
        position_table()[r][order_table()[r][j] as int] == j,
        position_table()[r][j] < 9,
        order_table()[r][position_table()[r][j] as int] == j,
{
}

proof fn lemma_pow3_pos(k: nat)
    ensures
        pow3(k) >= 1,
    decreases k,
{
    if k > 0 {
        lemma_pow3_pos((k - 1) as nat);
    }
}

/// Squares of side `s` at different multiples of `s` do not overlap.
proof fn lemma_offsets_disjoint(s: nat, q1: nat, q2: nat, a: nat)
    requires
        s >= 1,
        q1 != q2,
        q1 * s <= a < q1 * s + s,
    ensures
        !(q2 * s <= a < q2 * s + s),
{
    if q1 < q2 {
        assert(q1 * s + s <= q2 * s) by (nonlinear_arith)
            requires
                q1 < q2,
        ;
    } else {
        assert(q2 * s + s <= q1 * s) by (nonlinear_arith)
            requires
                q2 < q1,
        ;
    }
}

/// The sub-block of a block of side `3 s` with corner `(x, y)`: its corner
/// lies inside the block, and so do its cells.
proof fn lemma_sub_block(s: nat, c: nat, x: nat, y: nat, p: (nat, nat))
    requires
        c < 9,
        in_block(p, x + (c % 3) * s, y + (c / 3) * s, s),
    ensures
        in_block(p, x, y, 3 * s),
{
    assert((c % 3) * s + s <= 3 * s) by (nonlinear_arith)
        requires
            c % 3 < 3,
    ;
    assert((c / 3) * s + s <= 3 * s) by (nonlinear_arith)
        requires
            c / 3 < 3,
    ;
}

/// Cells of different sub-blocks differ.
proof fn lemma_sub_blocks_disjoint(s: nat, c1: nat, c2: nat, x: nat, y: nat, p: (nat, nat))
    requires
        s >= 1,
        c1 < 9,
        c2 < 9,
        c1 != c2,
        in_block(p, x + (c1 % 3) * s, y + (c1 / 3) * s, s),
    ensures
        !in_block(p, x + (c2 % 3) * s, y + (c2 / 3) * s, s),
{
    if c1 % 3 != c2 % 3 {
        lemma_offsets_disjoint(s, c1 % 3, c2 % 3, (p.0 - x) as nat);
    } else {
        assert(c1 / 3 != c2 / 3);
        lemma_offsets_disjoint(s, c1 / 3, c2 / 3, (p.1 - y) as nat);
    }
}

/// The number of cells from the `i`-th sub-block on: `(9 - i) s^2`.
proof fn lemma_part_len(k: nat, o: u8, x: nat, y: nat, i: nat)
    requires
        k >= 1,
        i <= 9,
    ensures
        peano_part(k, o, x, y, i).len() == (9 - i) * pow3((k - 1) as nat) * pow3((k - 1) as nat),
    decreases k, 9 - i,
{
    let s = pow3((k - 1) as nat);
    if i == 9 {
        assert(peano_part(k, o, x, y, i) =~= Seq::<(nat, nat)>::empty());
        assert((9 - i) * s * s == 0) by (nonlinear_arith)
            requires
                i == 9,
        ;
    } else {
        let c = visit(o, i);
        lemma_peano_len((k - 1) as nat, child_orientation(o, i), x + (c % 3) * s, y + (c / 3) * s);
        lemma_part_len(k, o, x, y, i + 1);
        assert((9 - i) * s * s == s * s + (9 - (i + 1)) * s * s) by (nonlinear_arith)
            requires
                i < 9,
        ;
    }
}

/// The sub-block, counted in visiting order from the `i`-th, that holds the
/// `t`-th cell from the `i`-th sub-block on.
pub open spec fn block_of(k: nat, i: nat, t: int) -> nat
    decreases 9 - i,
{
    if i >= 9 {
        9
    } else if t < pow3((k - 1) as nat) * pow3((k - 1) as nat) {
        i
    } else {
        block_of(k, i + 1, t - pow3((k - 1) as nat) * pow3((k - 1) as nat))
    }
}

/// The `t`-th cell from the `i`-th sub-block on lies in sub-block
/// `block_of(k, i, t)`, which is one of those.
proof fn lemma_part_block(k: nat, o: u8, x: nat, y: nat, i: nat, t: int)
    requires
        k >= 1,
        i <= 9,
        0 <= t < peano_part(k, o, x, y, i).len(),
    ensures
        i <= block_of(k, i, t) < 9,
        in_sub_block(k, o, x, y, block_of(k, i, t), peano_part(k, o, x, y, i)[t]),
    decreases k, 9 - i,
{
    if i < 9 {
        let s = pow3((k - 1) as nat);
        let c = visit(o, i);
        let cx = x + (c % 3) * s;
        let cy = y + (c / 3) * s;
        let child = peano_cells((k - 1) as nat, child_orientation(o, i), cx, cy);
        let rest = peano_part(k, o, x, y, i + 1);
        lemma_peano_len((k - 1) as nat, child_orientation(o, i), cx, cy);
        let whole = peano_part(k, o, x, y, i);
        assert(whole == child + rest);
        if t < child.len() {
            lemma_peano_blocks((k - 1) as nat, child_orientation(o, i), cx, cy);
            assert(in_block(child[t], cx, cy, s));
        } else {
            let u = t - child.len();
            assert(whole[t] == rest[u]);
            lemma_part_block(k, o, x, y, i + 1, u);
        }
    } else {
        assert(peano_part(k, o, x, y, i) =~= Seq::<(nat, nat)>::empty());
    }
}

/// No cell from the `i`-th sub-block on is visited twice.
proof fn lemma_part_distinct(k: nat, o: u8, x: nat, y: nat, i: nat)
    requires
        k >= 1,
        i <= 9,
    ensures
        peano_part(k, o, x, y, i).no_duplicates(),
    decreases k, 9 - i,
{
    if i < 9 {
        let s = pow3((k - 1) as nat);
        lemma_pow3_pos((k - 1) as nat);
        lemma_tables((o % 4) as int, i as int);
        let c = visit(o, i);
        let cx = x + (c % 3) * s;
        let cy = y + (c / 3) * s;
        let child = peano_cells((k - 1) as nat, child_orientation(o, i), cx, cy);
        let rest = peano_part(k, o, x, y, i + 1);
        lemma_peano_blocks((k - 1) as nat, child_orientation(o, i), cx, cy);
        lemma_peano_distinct((k - 1) as nat, child_orientation(o, i), cx, cy);
        lemma_part_distinct(k, o, x, y, i + 1);
        let whole = peano_part(k, o, x, y, i);
        assert(whole == child + rest);
        assert forall|t1: int, t2: int| 0 <= t1 < child.len() && 0 <= t2 < rest.len() implies
            #[trigger] child[t1] != #[trigger] rest[t2] by {
            let j = block_of(k, i + 1, t2);
            lemma_part_block(k, o, x, y, i + 1, t2);
            lemma_tables((o % 4) as int, j as int);
            assert(visit(o, j) != c);
            assert(in_block(child[t1], cx, cy, s));
            lemma_sub_blocks_disjoint(s, visit(o, j), c, x, y, rest[t2]);
        }
        assert forall|t1: int, t2: int| 0 <= t1 < whole.len() && 0 <= t2 < whole.len() && t1 != t2 implies
            whole[t1] != whole[t2] by {
            if t1 < child.len() && t2 < child.len() {
            } else if t1 >= child.len() && t2 >= child.len() {
                assert(whole[t1] == rest[t1 - child.len()]);
                assert(whole[t2] == rest[t2 - child.len()]);
            } else if t1 < child.len() {
                assert(whole[t2] == rest[t2 - child.len()]);
            } else {
                assert(whole[t1] == rest[t1 - child.len()]);
            }
        }
    }
}

proof fn lemma_peano_len(k: nat, o: u8, x: nat, y: nat)
    ensures
        peano_cells(k, o, x, y).len() == pow3(k) * pow3(k),
    decreases k, 10nat,
{
    if k > 0 {
        let s = pow3((k - 1) as nat);
        lemma_part_len(k, o, x, y, 0);
        assert(pow3(k) == 3 * s);
        assert(9 * s * s == (3 * s) * (3 * s)) by (nonlinear_arith);
        assert(pow3(k) * pow3(k) == (3 * s) * (3 * s));
    } else {
        assert(peano_cells(k, o, x, y) == seq![(x, y)]);
        assert(pow3(0) == 1);
    }
}

proof fn lemma_peano_blocks(k: nat, o: u8, x: nat, y: nat)
    ensures
        forall|t: int| 0 <= t < peano_cells(k, o, x, y).len() ==>
            #[trigger] in_block(peano_cells(k, o, x, y)[t], x, y, pow3(k)),
    decreases k, 10nat,
{
    if k > 0 {
        let s = pow3((k - 1) as nat);
        assert(pow3(k) == 3 * s);
        let cells = peano_cells(k, o, x, y);
        assert forall|t: int| 0 <= t < cells.len() implies #[trigger] in_block(cells[t], x, y, pow3(k)) by {
            let j = block_of(k, 0, t);
            lemma_part_block(k, o, x, y, 0, t);
            lemma_tables((o % 4) as int, j as int);
            lemma_sub_block(s, visit(o, j), x, y, cells[t]);
        }
    } else {
        assert(peano_cells(k, o, x, y) == seq![(x, y)]);
    }
}

proof fn lemma_peano_distinct(k: nat, o: u8, x: nat, y: nat)
    ensures
        peano_cells(k, o, x, y).no_duplicates(),
    decreases k, 10nat,
{
    if k > 0 {
        lemma_part_distinct(k, o, x, y, 0);
    } else {
        assert(peano_cells(k, o, x, y) == seq![(x, y)]);
    }
}

/// The cells from the `i`-th sub-block on include those of every later
/// sub-block.
proof fn lemma_part_contains(k: nat, o: u8, x: nat, y: nat, i: nat, j: nat, p: (nat, nat))
    requires
        k >= 1,
        i <= j < 9,
        peano_cells((k - 1) as nat, child_orientation(o, j),
            x + (visit(o, j) % 3) * pow3((k - 1) as nat), y + (visit(o, j) / 3) * pow3((k - 1) as nat)).contains(p),
    ensures
        peano_part(k, o, x, y, i).contains(p),
    decreases j - i,
{
    let s = pow3((k - 1) as nat);
    let c = visit(o, i);
    let child = peano_cells((k - 1) as nat, child_orientation(o, i), x + (c % 3) * s, y + (c / 3) * s);
    let rest = peano_part(k, o, x, y, i + 1);
    let whole = peano_part(k, o, x, y, i);
    assert(whole == child + rest);
    if i == j {
        let t = choose|t: int| 0 <= t < child.len() && child[t] == p;
        assert(whole[t] == p);
    } else {
        lemma_part_contains(k, o, x, y, i + 1, j, p);
        let t = choose|t: int| 0 <= t < rest.len() && rest[t] == p;
        assert(whole[t + child.len()] == p);
    }
}

/// Every cell of the block is on the curve.
proof fn lemma_peano_covers(k: nat, o: u8, x: nat, y: nat, p: (nat, nat))
    requires
        in_block(p, x, y, pow3(k)),
    ensures
        peano_cells(k, o, x, y).contains(p),
    decreases k,
{
    if k == 0 {
        assert(pow3(0) == 1);
        assert(p == (x, y));
        assert(peano_cells(k, o, x, y)[0] == p);
    } else {
        let s = pow3((k - 1) as nat);
        lemma_pow3_pos((k - 1) as nat);
        assert(pow3(k) == 3 * s);
        let da = (p.0 - x) as nat;
        let db = (p.1 - y) as nat;
        lemma_fundamental_div_mod(da as int, s as int);
        lemma_fundamental_div_mod(db as int, s as int);
        let cx = da / s;
        let cy = db / s;
        assert(cx < 3) by (nonlinear_arith)
            requires
                da == s * cx + da % s,
                da % s >= 0,
                da < 3 * s,
                s >= 1,
        ;
        assert(cy < 3) by (nonlinear_arith)
            requires
                db == s * cy + db % s,
                db % s >= 0,
                db < 3 * s,
                s >= 1,
        ;
        let c = cx + 3 * cy;
        let r = (o % 4) as int;
        lemma_tables(r, c as int);
        let j = position_table()[r][c as int] as nat;
        lemma_tables(r, j as int);
        assert(visit(o, j) == c);
        assert(c % 3 == cx && c / 3 == cy);
        assert(in_block(p, x + cx * s, y + cy * s, s)) by (nonlinear_arith)
            requires
                da == s * cx + da % s,
                db == s * cy + db % s,
                0 <= da % s < s,
                0 <= db % s < s,
                da == p.0 - x,
                db == p.1 - y,
        ;
        lemma_peano_covers((k - 1) as nat, child_orientation(o, j), x + cx * s, y + cy * s, p);
        lemma_part_contains(k, o, x, y, 0, j, p);
    }
}

/// The Peano cells of a block of side `3^k`: `9^k` of them, all inside the
/// block, none twice, and every cell of the block among them.
pub proof fn lemma_peano(k: nat, o: u8, x: nat, y: nat)
    ensures
        peano_cells(k, o, x, y).len() == pow3(k) * pow3(k),
        forall|t: int| 0 <= t < peano_cells(k, o, x, y).len() ==>
            #[trigger] in_block(peano_cells(k, o, x, y)[t], x, y, pow3(k)),
        peano_cells(k, o, x, y).no_duplicates(),
        forall|p: (nat, nat)| #[trigger] in_block(p, x, y, pow3(k)) ==> peano_cells(k, o, x, y).contains(p),
{
    assert forall|p: (nat, nat)| #[trigger] in_block(p, x, y, pow3(k)) implies peano_cells(k, o, x, y).contains(p) by {
        lemma_peano_covers(k, o, x, y, p);
    }
    lemma_peano_len(k, o, x, y);
    lemma_peano_blocks(k, o, x, y);
    lemma_peano_distinct(k, o, x, y);
}

/// The cells of a list of grid points.
pub open spec fn cells_of(points: Seq<(usize, usize)>) -> Seq<(nat, nat)> {
    points.map_values(|p: (usize, usize)| (p.0 as nat, p.1 as nat))
}

/// Append the Peano cells of the block of side `size = 3^depth` with corner
/// `(x, y)` and orientation `orientation` to `points`.
fn push_peano(x: usize, y: usize, size: usize, depth: usize, orientation: u8, points: &mut Vec<(usize, usize)>)
    requires
        size == pow3(depth as nat),
        x + size <= usize::MAX,
        y + size <= usize::MAX,
    ensures
        cells_of(final(points)@) == cells_of(old(points)@) + peano_cells(depth as nat, orientation, x as nat, y as nat),
    decreases depth,
{
    if depth == 0 {
        let ghost before = points@;
        points.push((x, y));
        assert(cells_of(points@) =~= cells_of(before) + peano_cells(0, orientation, x as nat, y as nat));
        return;
    }
    let step = size / 3;
    assert(pow3(depth as nat) == 3 * pow3((depth - 1) as nat));
    assert(step == pow3((depth - 1) as nat));
    let orders: [[u8; 9]; 4] = [
        [0, 1, 2, 5, 4, 3, 6, 7, 8],
        [0, 3, 6, 7, 4, 1, 2, 5, 8],
        [8, 7, 6, 3, 4, 5, 2, 1, 0],
        [8, 5, 2, 1, 4, 7, 6, 3, 0],
    ];
    let orientations: [[u8; 9]; 4] = [
        [1, 0, 1, 0, 0, 0, 1, 0, 1],
        [0, 1, 0, 1, 1, 1, 0, 1, 0],
        [1, 0, 1, 0, 0, 0, 1, 0, 1],
        [0, 1, 0, 1, 1, 1, 0, 1, 0],
    ];
    assert(orders@.map_values(|r: [u8; 9]| r@) =~= order_table());
    assert(orientations@.map_values(|r: [u8; 9]| r@) =~= orientation_table());
    let r = (orientation % 4) as usize;
    let order = orders[r];
    let child_orientations = orientations[r];
    assert(order@ == order_table()[r as int]);
    assert(child_orientations@ == orientation_table()[r as int]);
    let ghost start = cells_of(points@);
    let ghost k = depth as nat;
    for i in 0..9usize
        invariant
            depth >= 1,
            k == depth as nat,
            step == pow3((depth - 1) as nat),
            x + 3 * step <= usize::MAX,
            y + 3 * step <= usize::MAX,
            r == (orientation % 4) as usize,
            order@ == order_table()[r as int],
            child_orientations@ == orientation_table()[r as int],
            cells_of(points@) + peano_part(k, orientation, x as nat, y as nat, i as nat)
                == start + peano_part(k, orientation, x as nat, y as nat, 0),
    {
        proof {
            lemma_tables(r as int, i as int);
        }
        let cell = order[i] as usize;
        let cx = cell % 3;
        let cy = cell / 3;
        assert(cx * step + step <= 3 * step && cy * step + step <= 3 * step) by (nonlinear_arith)
            requires
                cx < 3,
                cy < 3,
        ;
        let ghost before = cells_of(points@);
        push_peano(x + cx * step, y + cy * step, step, depth - 1, child_orientations[i], points);
        proof {
            let part = peano_part(k, orientation, x as nat, y as nat, i as nat);
            let sp = pow3((k - 1) as nat);
            let c = visit(orientation, i as nat);
            let child = peano_cells((k - 1) as nat, child_orientation(orientation, i as nat),
                x as nat + (c % 3) * sp, y as nat + (c / 3) * sp);
            assert(part == child + peano_part(k, orientation, x as nat, y as nat, i as nat + 1));
            assert(cells_of(points@) == before + child);
            assert(cells_of(points@) + peano_part(k, orientation, x as nat, y as nat, i as nat + 1)
                =~= before + part);
        }
    }
    assert(peano_part(k, orientation, x as nat, y as nat, 9) =~= Seq::<(nat, nat)>::empty());
    assert(cells_of(points@) =~= start + peano_part(k, orientation, x as nat, y as nat, 0));
}

/// Generate the cells of the Peano curve through the grid of side
/// `3^depth`, in visiting order, starting with the given orientation.
pub fn peano_points(depth: usize, orientation: u8) -> (points: Vec<(usize, usize)>)
    requires
        2 * pow3(depth as nat) <= usize::MAX,
    ensures
        cells_of(points@) == peano_cells(depth as nat, orientation, 0, 0),
{
    let mut size: usize = 1;
    let mut k: usize = 0;
    while k < depth
        invariant
            k <= depth,
            size == pow3(k as nat),
            2 * pow3(depth as nat) <= usize::MAX,
        decreases depth - k,
    {
        proof {
            lemma_pow3_monotone((k + 1) as nat, depth as nat);
        }
        size = size * 3;
        k = k + 1;
    }
    let mut points: Vec<(usize, usize)> = Vec::new();
    push_peano(0, 0, size, depth, orientation, &mut points);
    assert(cells_of(Seq::<(usize, usize)>::empty()) =~= Seq::<(nat, nat)>::empty());
    assert(Seq::<(nat, nat)>::empty() + peano_cells(depth as nat, orientation, 0, 0) =~= peano_cells(depth as nat, orientation, 0, 0));
    points
}

proof fn lemma_pow3_monotone(a: nat, b: nat)
    requires
        a <= b,
    ensures
        pow3(a) <= pow3(b),
    decreases b,
{
    if a < b {
        lemma_pow3_monotone(a, (b - 1) as nat);
        lemma_pow3_pos((b - 1) as nat);
    }
}

} // verus!
