//! The order in which segments are joined into polylines.
//!
//! Segments are numbered `0..n`. For each segment `a`, `succ[a]` lists, in
//! the order they are tried, the segments whose start meets the end of `a`,
//! and `pred[a]` the segments whose end meets the start of `a`. Which
//! endpoints meet is decided by the caller (a distance within a tolerance).
//!
//! Segments are taken in index order. Each segment not yet used starts a
//! polyline; the polyline is extended forward from its last segment with the
//! first unused segment of `succ`, as long as there is one, and then
//! backward from its first segment with the first unused segment of `pred`.
use vstd::prelude::*;
use vstd::seq_lib::lemma_no_dup_in_concat;

verus! {

/// The first entry of `cands` that is a segment not yet used.
pub open spec fn first_free(cands: Seq<usize>, used: Seq<bool>) -> Option<usize>
    decreases cands.len(),
{
    if cands.len() == 0 {
        None
    } else if cands[0] < used.len() && !used[cands[0] as int] {
        Some(cands[0])
    } else {
        first_free(cands.drop_first(), used)
    }
}

/// The number of segments not yet used.
pub open spec fn free_count(used: Seq<bool>) -> nat
    decreases used.len(),
{
    if used.len() == 0 {
        0
    } else {
        free_count(used.drop_last()) + if used.last() { 0nat } else { 1nat }
    }
}

/// `used` with every segment of `s` marked as used.
pub open spec fn mark(used: Seq<bool>, s: Seq<usize>) -> Seq<bool>
    decreases s.len(),
{
    if s.len() == 0 {
        used
    } else if s.last() < used.len() {
        mark(used, s.drop_last()).update(s.last() as int, true)
    } else {
        mark(used, s.drop_last())
    }
}

/// What `first_free` picks is an unused segment listed in `cands`; when it
/// picks nothing, every listed segment is used.
pub proof fn lemma_first_free(cands: Seq<usize>, used: Seq<bool>)
    ensures
        first_free(cands, used) matches Some(b) ==> b < used.len() && !used[b as int]
            && cands.contains(b),
        first_free(cands, used) is None ==> forall|k: int|
            0 <= k < cands.len() && cands[k] < used.len() ==> used[cands[k] as int],
    decreases cands.len(),
{
    if cands.len() > 0 {
        lemma_first_free(cands.drop_first(), used);
        if first_free(cands, used) is None {
            assert forall|k: int| 0 <= k < cands.len() && cands[k] < used.len() implies used[cands[k] as int] by {
                if k > 0 {
                    assert(cands.drop_first()[k - 1] == cands[k]);
                }
            }
        }
        if let Some(b) = first_free(cands, used) {
            if !(cands[0] < used.len() && !used[cands[0] as int]) {
                let k = choose|k: int| 0 <= k < cands.drop_first().len() && cands.drop_first()[k] == b;
                assert(cands[k + 1] == b);
            } else {
                assert(cands[0] == b);
            }
        }
    }
}

/// Marking an unused segment leaves one fewer unused.
pub proof fn lemma_free_count_mark(used: Seq<bool>, i: int)
    requires
        0 <= i < used.len(),
        !used[i],
    ensures
        free_count(used.update(i, true)) + 1 == free_count(used),
    decreases used.len(),
{
    let u = used.update(i, true);
    if i == used.len() - 1 {
        assert(u.drop_last() =~= used.drop_last());
    } else {
        lemma_free_count_mark(used.drop_last(), i);
        assert(u.drop_last() =~= used.drop_last().update(i, true));
    }
}

/// The segments met by walking from `at` through `next`: each step takes the
/// first unused segment listed for the segment reached last, until none is
/// left.
pub open spec fn walk(next: Seq<Seq<usize>>, used: Seq<bool>, at: usize) -> Seq<usize>
    decreases free_count(used),
{
    if at < next.len() {
        match first_free(next[at as int], used) {
            Some(b) => {
                proof {
                    lemma_first_free(next[at as int], used);
                    lemma_free_count_mark(used, b as int);
                }
                seq![b] + walk(next, used.update(b as int, true), b)
            },
            None => Seq::empty(),
        }
    } else {
        Seq::empty()
    }
}

/// The segments of the polyline started by `s`, in drawing order, and the
/// used marks after it: first the walk forward from `s` through `succ`,
/// then the walk backward from `s` through `pred`, whose segments come
/// before `s`, nearest last.
pub open spec fn chain_from(succ: Seq<Seq<usize>>, pred: Seq<Seq<usize>>, used: Seq<bool>, s: usize) -> (Seq<usize>, Seq<bool>) {
    let u1 = used.update(s as int, true);
    let f = walk(succ, u1, s);
    let u2 = mark(u1, f);
    let b = walk(pred, u2, s);
    (b.reverse() + seq![s] + f, mark(u2, b))
}

/// The polylines started by the segments from `i` on, each by the first
/// segment not yet used.
pub open spec fn chains_from(succ: Seq<Seq<usize>>, pred: Seq<Seq<usize>>, used: Seq<bool>, i: nat) -> Seq<Seq<usize>>
    decreases succ.len() - i,
{
    if i >= succ.len() {
        Seq::empty()
    } else if i < used.len() && used[i as int] {
        chains_from(succ, pred, used, i + 1)
    } else {
        let (c, u) = chain_from(succ, pred, used, i as usize);
        seq![c] + chains_from(succ, pred, u, i + 1)
    }
}

/// The polylines of segments `0..n`, as lists of segment numbers.
pub open spec fn chain_all(succ: Seq<Seq<usize>>, pred: Seq<Seq<usize>>) -> Seq<Seq<usize>> {
    chains_from(succ, pred, Seq::new(succ.len(), |k: int| false), 0)
}

/// The views of a list of lists.
pub open spec fn lists(v: Seq<Vec<usize>>) -> Seq<Seq<usize>> {
    v.map_values(|l: Vec<usize>| l@)
}

fn first_free_in(cands: &Vec<usize>, used: &Vec<bool>) -> (r: Option<usize>)
    ensures
        r == first_free(cands@, used@),
{
    let mut k: usize = 0;
    assert(cands@.skip(0) =~= cands@);
    while k < cands.len()
        invariant
            k <= cands@.len(),
            first_free(cands@, used@) == first_free(cands@.skip(k as int), used@),
        decreases cands@.len() - k,
    {
        let c = cands[k];
        proof {
            assert(cands@.skip(k as int)[0] == c);
            assert(cands@.skip(k as int).drop_first() =~= cands@.skip(k as int + 1));
        }
        if c < used.len() && !used[c] {
            return Some(c);
        }
        k = k + 1;
    }
    assert(cands@.skip(k as int).len() == 0);
    None
}

proof fn lemma_mark_push(used: Seq<bool>, s: Seq<usize>, b: usize)
    requires
        b < used.len(),
    ensures
        mark(used, s.push(b)) == mark(used, s).update(b as int, true),
{
    assert(s.push(b).drop_last() =~= s);
}

proof fn lemma_mark_len(used: Seq<bool>, s: Seq<usize>)
    ensures
        mark(used, s).len() == used.len(),
    decreases s.len(),
{
    if s.len() > 0 {
        lemma_mark_len(used, s.drop_last());
    }
}

fn walk_from(next: &Vec<Vec<usize>>, used: &mut Vec<bool>, at: usize) -> (steps: Vec<usize>)
    requires
        old(used)@.len() == next@.len(),
    ensures
        steps@ == walk(lists(next@), old(used)@, at),
        final(used)@ == mark(old(used)@, steps@),
{
    let ghost l = lists(next@);
    let ghost u0 = used@;
    let mut steps: Vec<usize> = Vec::new();
    let mut last = at;
    proof {
        assert(steps@ + walk(l, used@, last) =~= walk(l, u0, at));
    }
    loop
        invariant
            l == lists(next@),
            used@.len() == next@.len(),
            u0.len() == next@.len(),
            walk(l, u0, at) == steps@ + walk(l, used@, last),
            used@ == mark(u0, steps@),
        ensures
            steps@ == walk(l, u0, at),
            used@ == mark(u0, steps@),
        decreases free_count(used@),
    {
        if last >= next.len() {
            assert(steps@ + walk(l, used@, last) =~= steps@);
            break;
        }
        let found = first_free_in(&next[last], used);
        proof {
            assert(l[last as int] == next@[last as int]@);
            lemma_first_free(l[last as int], used@);
        }
        match found {
            Some(b) => {
                proof {
                    lemma_free_count_mark(used@, b as int);
                    lemma_mark_push(u0, steps@, b);
                    assert(walk(l, used@, last) == seq![b] + walk(l, used@.update(b as int, true), b));
                }
                let ghost old_steps = steps@;
                used.set(b, true);
                steps.push(b);
                last = b;
                proof {
                    assert(old_steps + (seq![b] + walk(l, used@, last)) =~= steps@ + walk(l, used@, last));
                }
            },
            None => {
                assert(steps@ + walk(l, used@, last) =~= steps@);
                break;
            },
        }
    }
    steps
}

/// Join segments `0..n` into polylines: the result lists, for each
/// polyline in the order they are started, its segment numbers in drawing
/// order.
pub fn chain_order(succ: &Vec<Vec<usize>>, pred: &Vec<Vec<usize>>) -> (chains: Vec<Vec<usize>>)
    requires
        succ@.len() == pred@.len(),
    ensures
        lists(chains@) == chain_all(lists(succ@), lists(pred@)),
{
    let n = succ.len();
    let ghost sl = lists(succ@);
    let ghost pl = lists(pred@);
    let mut used: Vec<bool> = Vec::new();
    let mut k: usize = 0;
    while k < n
        invariant
            k <= n,
            used@.len() == k,
            forall|j: int| 0 <= j < k ==> !used@[j],
        decreases n - k,
    {
        used.push(false);
        k = k + 1;
    }
    assert(used@ =~= Seq::new(sl.len(), |j: int| false));
    let mut chains: Vec<Vec<usize>> = Vec::new();
    let mut i: usize = 0;
    while i < n
        invariant
            n == succ@.len(),
            n == pred@.len(),
            sl == lists(succ@),
            pl == lists(pred@),
            i <= n,
            used@.len() == n,
            chain_all(sl, pl) == lists(chains@) + chains_from(sl, pl, used@, i as nat),
        decreases n - i,
    {
        if used[i] {
            i = i + 1;
        } else {
            let ghost u0 = used@;
            used.set(i, true);
            let fwd = walk_from(succ, &mut used, i);
            proof {
                lemma_mark_len(u0.update(i as int, true), fwd@);
            }
            let back = walk_from(pred, &mut used, i);
            proof {
                lemma_mark_len(mark(u0.update(i as int, true), fwd@), back@);
            }
            let mut chain: Vec<usize> = Vec::new();
            let mut j: usize = back.len();
            while j > 0
                invariant
                    j <= back@.len(),
                    chain@ =~= back@.subrange(j as int, back@.len() as int).reverse(),
                decreases j,
            {
                j = j - 1;
                chain.push(back[j]);
                assert(chain@ =~= back@.subrange(j as int, back@.len() as int).reverse());
            }
            chain.push(i);
            let mut t: usize = 0;
            while t < fwd.len()
                invariant
                    t <= fwd@.len(),
                    chain@ =~= back@.reverse() + seq![i] + fwd@.take(t as int),
                decreases fwd@.len() - t,
            {
                chain.push(fwd[t]);
                t = t + 1;
            }
            proof {
                assert(fwd@.take(fwd@.len() as int) =~= fwd@);
                let cf = chain_from(sl, pl, u0, i);
                assert(cf.0 == chain@);
                assert(cf.1 == used@);
                let old_chains = lists(chains@);
                assert(chains_from(sl, pl, u0, i as nat) == seq![cf.0] + chains_from(sl, pl, cf.1, i as nat + 1));
            }
            let ghost before = lists(chains@);
            chains.push(chain);
            proof {
                assert(lists(chains@) =~= before.push(chain@));
                assert(before + (seq![chain@] + chains_from(sl, pl, used@, i as nat + 1))
                    =~= lists(chains@) + chains_from(sl, pl, used@, i as nat + 1));
            }
            i = i + 1;
        }
    }
    assert(lists(chains@) + chains_from(sl, pl, used@, i as nat) =~= lists(chains@));
    chains
}

/// The segment numbers of a list of polylines, polyline after polyline.
pub open spec fn joined(cs: Seq<Seq<usize>>) -> Seq<usize>
    decreases cs.len(),
{
    if cs.len() == 0 {
        Seq::empty()
    } else {
        cs[0] + joined(cs.drop_first())
    }
}

proof fn lemma_mark_pointwise(used: Seq<bool>, s: Seq<usize>)
    ensures
        mark(used, s).len() == used.len(),
        forall|k: usize| k < used.len() ==> #[trigger] mark(used, s)[k as int] == (used[k as int] || s.contains(k)),
    decreases s.len(),
{
    if s.len() > 0 {
        let d = s.drop_last();
        lemma_mark_pointwise(used, d);
        assert forall|k: usize| k < used.len() implies #[trigger] mark(used, s)[k as int] == (used[k as int] || s.contains(k)) by {
            assert(mark(used, d)[k as int] == (used[k as int] || d.contains(k)));
            if d.contains(k) {
                let j = choose|j: int| 0 <= j < d.len() && d[j] == k;
                assert(s[j] == k);
            }
            if s.contains(k) {
                let j = choose|j: int| 0 <= j < s.len() && s[j] == k;
                if j < d.len() {
                    assert(d[j] == k);
                }
            }
        }
    }
}

proof fn lemma_walk_fresh(next: Seq<Seq<usize>>, used: Seq<bool>, at: usize)
    ensures
        walk(next, used, at).no_duplicates(),
        forall|j: int| 0 <= j < walk(next, used, at).len() ==>
            #[trigger] walk(next, used, at)[j] < used.len() && !used[walk(next, used, at)[j] as int],
    decreases free_count(used),
{
    if at < next.len() {
        lemma_first_free(next[at as int], used);
        if let Some(b) = first_free(next[at as int], used) {
            lemma_free_count_mark(used, b as int);
            let u = used.update(b as int, true);
            lemma_walk_fresh(next, u, b);
            let rest = walk(next, u, b);
            let w = walk(next, used, at);
            assert(w == seq![b] + rest);
            assert forall|j: int| 0 <= j < rest.len() implies rest[j] != b && !used[rest[j] as int] by {
                assert(rest[j] < u.len() && !u[rest[j] as int]);
            }
            lemma_no_dup_in_concat(seq![b], rest);
            assert forall|j: int| 0 <= j < w.len() implies #[trigger] w[j] < used.len() && !used[w[j] as int] by {
                if j > 0 {
                    assert(w[j] == rest[j - 1]);
                }
            }
        }
    }
}

proof fn lemma_chain_from_fresh(succ: Seq<Seq<usize>>, pred: Seq<Seq<usize>>, used: Seq<bool>, s: usize)
    requires
        s < used.len(),
        !used[s as int],
    ensures
        chain_from(succ, pred, used, s).0.no_duplicates(),
        chain_from(succ, pred, used, s).0.contains(s),
        forall|j: int| 0 <= j < chain_from(succ, pred, used, s).0.len() ==>
            #[trigger] chain_from(succ, pred, used, s).0[j] < used.len()
            && !used[chain_from(succ, pred, used, s).0[j] as int],
        chain_from(succ, pred, used, s).1.len() == used.len(),
        forall|k: usize| k < used.len() ==> #[trigger] chain_from(succ, pred, used, s).1[k as int]
            == (used[k as int] || chain_from(succ, pred, used, s).0.contains(k)),
{
    let u1 = used.update(s as int, true);
    let f = walk(succ, u1, s);
    lemma_walk_fresh(succ, u1, s);
    let u2 = mark(u1, f);
    lemma_mark_pointwise(u1, f);
    let b = walk(pred, u2, s);
    lemma_walk_fresh(pred, u2, s);
    let u3 = mark(u2, b);
    lemma_mark_pointwise(u2, b);
    let r = b.reverse();
    assert(r.len() == b.len());
    assert forall|j: int| 0 <= j < r.len() implies r[j] == b[b.len() - 1 - j] by {}
    assert(r.no_duplicates()) by {
        assert forall|i: int, j: int| 0 <= i < r.len() && 0 <= j < r.len() && i != j implies r[i] != r[j] by {
            assert(r[i] == b[b.len() - 1 - i]);
            assert(r[j] == b[b.len() - 1 - j]);
        }
    }
    let mid = seq![s];
    let c = r + mid + f;
    assert(c == chain_from(succ, pred, used, s).0);
    assert forall|j: int| 0 <= j < f.len() implies f[j] != s && !used[f[j] as int] by {
        assert(!u1[f[j] as int]);
    }
    assert forall|j: int| 0 <= j < r.len() implies r[j] != s && !used[r[j] as int]
        && !f.contains(r[j]) by {
        let x = b[b.len() - 1 - j];
        assert(r[j] == x);
        assert(!u2[x as int]);
        assert(u2[x as int] == (u1[x as int] || f.contains(x)));
    }
    lemma_no_dup_in_concat(r, mid);
    assert forall|i: int, j: int| 0 <= i < (r + mid).len() && 0 <= j < f.len() implies (r + mid)[i] != f[j] by {
        if i < r.len() {
            assert((r + mid)[i] == r[i]);
            if r[i] == f[j] {
                assert(f.contains(r[i]));
            }
        } else {
            assert((r + mid)[i] == s);
        }
    }
    lemma_no_dup_in_concat(r + mid, f);
    assert(c[r.len() as int] == s);
    assert forall|j: int| 0 <= j < c.len() implies #[trigger] c[j] < used.len() && !used[c[j] as int] by {
        if j < r.len() {
            assert(c[j] == r[j]);
            assert(r[j] == b[b.len() - 1 - j]);
            assert(b[b.len() - 1 - j] < u2.len());
        } else if j == r.len() {
        } else {
            assert(c[j] == f[j - r.len() - 1]);
        }
    }
    assert forall|ku: usize| ku < used.len() implies #[trigger] u3[ku as int] == (used[ku as int] || c.contains(ku)) by {
        assert(u3[ku as int] == (u2[ku as int] || b.contains(ku)));
        assert(u2[ku as int] == (u1[ku as int] || f.contains(ku)));
        if c.contains(ku) {
            let j = choose|j: int| 0 <= j < c.len() && c[j] == ku;
            if j < r.len() {
                assert(b[b.len() - 1 - j] == ku);
                assert(b.contains(ku));
            } else if j == r.len() {
                assert(ku == s);
            } else {
                assert(f[j - r.len() - 1] == ku);
                assert(f.contains(ku));
            }
        }
        if b.contains(ku) {
            let j = choose|j: int| 0 <= j < b.len() && b[j] == ku;
            assert(c[b.len() - 1 - j] == r[b.len() - 1 - j]);
            assert(r[b.len() - 1 - j] == b[j]);
        }
        if f.contains(ku) {
            let j = choose|j: int| 0 <= j < f.len() && f[j] == ku;
            assert(c[r.len() + 1 + j] == f[j]);
        }
        if ku == s {
            assert(c[r.len() as int] == s);
        }
    }
}

proof fn lemma_chains_from_fresh(succ: Seq<Seq<usize>>, pred: Seq<Seq<usize>>, used: Seq<bool>, i: nat)
    requires
        used.len() == succ.len(),
        succ.len() <= usize::MAX,
    ensures
        joined(chains_from(succ, pred, used, i)).no_duplicates(),
        forall|j: int| 0 <= j < joined(chains_from(succ, pred, used, i)).len() ==>
            #[trigger] joined(chains_from(succ, pred, used, i))[j] < used.len()
            && !used[joined(chains_from(succ, pred, used, i))[j] as int],
        forall|k: usize| i <= k < used.len() && !used[k as int] ==>
            #[trigger] joined(chains_from(succ, pred, used, i)).contains(k),
        forall|t: int| 0 <= t < chains_from(succ, pred, used, i).len() ==>
            #[trigger] chains_from(succ, pred, used, i)[t].len() > 0,
    decreases succ.len() - i,
{
    let cs = chains_from(succ, pred, used, i);
    if i >= succ.len() {
        assert(joined(cs) =~= Seq::<usize>::empty());
    } else if used[i as int] {
        lemma_chains_from_fresh(succ, pred, used, i + 1);
    } else {
        let (c, u) = chain_from(succ, pred, used, i as usize);
        lemma_chain_from_fresh(succ, pred, used, i as usize);
        lemma_chains_from_fresh(succ, pred, u, i + 1);
        let rest = chains_from(succ, pred, u, i + 1);
        let jr = joined(rest);
        assert(cs == seq![c] + rest);
        assert(cs.drop_first() =~= rest);
        assert(joined(cs) == c + jr);
        assert forall|a: int, b: int| 0 <= a < c.len() && 0 <= b < jr.len() implies c[a] != jr[b] by {
            assert(!u[jr[b] as int]);
            assert(c[a] < used.len());
            assert(u[c[a] as int] == (used[c[a] as int] || c.contains(c[a])));
            assert(c.contains(c[a]));
        }
        lemma_no_dup_in_concat(c, jr);
        let jn = joined(cs);
        assert forall|j: int| 0 <= j < jn.len() implies #[trigger] jn[j] < used.len() && !used[jn[j] as int] by {
            if j < c.len() {
                assert(jn[j] == c[j]);
            } else {
                assert(jn[j] == jr[j - c.len()]);
                assert(!u[jr[j - c.len()] as int]);
                assert(u[jr[j - c.len()] as int] == (used[jr[j - c.len()] as int] || c.contains(jr[j - c.len()])));
            }
        }
        assert forall|k: usize| i <= k < used.len() && !used[k as int] implies #[trigger] jn.contains(k) by {
            if c.contains(k) {
                let j = choose|j: int| 0 <= j < c.len() && c[j] == k;
                assert(jn[j] == k);
            } else {
                assert(u[k as int] == (used[k as int] || c.contains(k)));
                if k == i as usize {
                } else {
                    assert(jr.contains(k));
                    let j = choose|j: int| 0 <= j < jr.len() && jr[j] == k;
                    assert(jn[c.len() + j] == k);
                }
            }
        }
        assert forall|t: int| 0 <= t < cs.len() implies #[trigger] cs[t].len() > 0 by {
            if t > 0 {
                assert(cs[t] == rest[t - 1]);
            }
        }
    }
}

/// Every segment lands in exactly one polyline, once, and every polyline
/// has at least one segment.
pub proof fn lemma_every_segment_once(succ: Seq<Seq<usize>>, pred: Seq<Seq<usize>>)
    requires
        succ.len() <= usize::MAX,
    ensures
        joined(chain_all(succ, pred)).no_duplicates(),
        forall|k: usize| k < succ.len() ==> #[trigger] joined(chain_all(succ, pred)).contains(k),
        forall|j: int| 0 <= j < joined(chain_all(succ, pred)).len() ==>
            #[trigger] joined(chain_all(succ, pred))[j] < succ.len(),
        forall|t: int| 0 <= t < chain_all(succ, pred).len() ==> #[trigger] chain_all(succ, pred)[t].len() > 0,
{
    let used = Seq::new(succ.len(), |k: int| false);
    lemma_chains_from_fresh(succ, pred, used, 0);
}

/// Segment `y` may follow segment `x` in a polyline: `y` is listed among the
/// segments meeting the end of `x`, or `x` among those meeting the start of
/// `y`.
pub open spec fn linked(succ: Seq<Seq<usize>>, pred: Seq<Seq<usize>>, x: usize, y: usize) -> bool {
    (x < succ.len() && succ[x as int].contains(y)) || (y < pred.len() && pred[y as int].contains(x))
}

/// Every pair of consecutive segments of `c` is linked.
pub open spec fn all_linked(succ: Seq<Seq<usize>>, pred: Seq<Seq<usize>>, c: Seq<usize>) -> bool {
    forall|j: int| 0 <= j < c.len() - 1 ==> #[trigger] linked(succ, pred, c[j], c[j + 1])
}

proof fn lemma_walk_first(next: Seq<Seq<usize>>, used: Seq<bool>, at: usize)
    requires
        walk(next, used, at).len() > 0,
    ensures
        at < next.len(),
        first_free(next[at as int], used) == Some(walk(next, used, at)[0]),
        next[at as int].contains(walk(next, used, at)[0]),
{
    if at < next.len() {
        lemma_first_free(next[at as int], used);
        if let Some(b) = first_free(next[at as int], used) {
            let u = used.update(b as int, true);
            assert(walk(next, used, at) == seq![b] + walk(next, u, b));
        }
    }
}

proof fn lemma_walk_step(next: Seq<Seq<usize>>, used: Seq<bool>, at: usize, j: int)
    requires
        1 <= j < walk(next, used, at).len(),
    ensures
        walk(next, used, at)[j - 1] < next.len(),
        next[walk(next, used, at)[j - 1] as int].contains(walk(next, used, at)[j]),
    decreases free_count(used),
{
    lemma_walk_first(next, used, at);
    lemma_first_free(next[at as int], used);
    let b = walk(next, used, at)[0];
    lemma_free_count_mark(used, b as int);
    let u = used.update(b as int, true);
    let rest = walk(next, u, b);
    assert(walk(next, used, at) == seq![b] + rest);
    if j == 1 {
        lemma_walk_first(next, u, b);
    } else {
        lemma_walk_step(next, u, b, j - 1);
    }
}

/// Step `j` of `w` follows from step `j - 1` through `next`.
pub open spec fn step_follows(next: Seq<Seq<usize>>, w: Seq<usize>, j: int) -> bool {
    w[j - 1] < next.len() && next[w[j - 1] as int].contains(w[j])
}

proof fn lemma_walk_links(next: Seq<Seq<usize>>, used: Seq<bool>, at: usize)
    ensures
        walk(next, used, at).len() > 0 ==> at < next.len() && next[at as int].contains(walk(next, used, at)[0]),
        forall|j: int| 1 <= j < walk(next, used, at).len() ==> #[trigger] step_follows(next, walk(next, used, at), j),
{
    if walk(next, used, at).len() > 0 {
        lemma_walk_first(next, used, at);
    }
    assert forall|j: int| 1 <= j < walk(next, used, at).len() implies #[trigger] step_follows(next, walk(next, used, at), j) by {
        lemma_walk_step(next, used, at, j);
    }
}

proof fn lemma_chain_from_links(succ: Seq<Seq<usize>>, pred: Seq<Seq<usize>>, used: Seq<bool>, s: usize)
    ensures
        all_linked(succ, pred, chain_from(succ, pred, used, s).0),
{
    let u1 = used.update(s as int, true);
    let f = walk(succ, u1, s);
    lemma_walk_links(succ, u1, s);
    let u2 = mark(u1, f);
    let b = walk(pred, u2, s);
    lemma_walk_links(pred, u2, s);
    let r = b.reverse();
    let c = r + seq![s] + f;
    assert(c == chain_from(succ, pred, used, s).0);
    assert forall|j: int| 0 <= j < c.len() - 1 implies #[trigger] linked(succ, pred, c[j], c[j + 1]) by {
        let n = b.len() as int;
        if j + 1 < n {
            let m = n - 2 - j;
            assert(c[j] == b[m + 1]);
            assert(c[j + 1] == b[m]);
            assert(step_follows(pred, b, m + 1));
        } else if j + 1 == n {
            assert(c[j] == b[0]);
            assert(c[j + 1] == s);
        } else if j == n {
            assert(c[j] == s);
            assert(c[j + 1] == f[0]);
        } else {
            let m = j - n;
            assert(c[j] == f[m - 1]);
            assert(c[j + 1] == f[m]);
            assert(step_follows(succ, f, m));
        }
    }
}

proof fn lemma_chains_from_links(succ: Seq<Seq<usize>>, pred: Seq<Seq<usize>>, used: Seq<bool>, i: nat)
    ensures
        forall|t: int| 0 <= t < chains_from(succ, pred, used, i).len() ==>
            all_linked(succ, pred, #[trigger] chains_from(succ, pred, used, i)[t]),
    decreases succ.len() - i,
{
    if i < succ.len() {
        if i < used.len() && used[i as int] {
            lemma_chains_from_links(succ, pred, used, i + 1);
            assert(chains_from(succ, pred, used, i) == chains_from(succ, pred, used, i + 1));
        } else {
            let (c, u) = chain_from(succ, pred, used, i as usize);
            lemma_chain_from_links(succ, pred, used, i as usize);
            lemma_chains_from_links(succ, pred, u, i + 1);
            let cs = chains_from(succ, pred, used, i);
            let rest = chains_from(succ, pred, u, i + 1);
            assert(cs == seq![c] + rest);
            assert forall|t: int| 0 <= t < cs.len() implies all_linked(succ, pred, #[trigger] cs[t]) by {
                if t > 0 {
                    assert(cs[t] == rest[t - 1]);
                    assert(all_linked(succ, pred, rest[t - 1]));
                } else {
                    assert(cs[0] == c);
                }
            }
        }
    } else {
        assert(chains_from(succ, pred, used, i).len() == 0);
    }
}

/// In every polyline, each segment meets the next: the next one's start is
/// among the segments matched to this one's end, or this one's end among
/// those matched to the next one's start.
pub proof fn lemma_polylines_linked(succ: Seq<Seq<usize>>, pred: Seq<Seq<usize>>)
    ensures
        forall|t: int| 0 <= t < chain_all(succ, pred).len() ==> all_linked(succ, pred, #[trigger] chain_all(succ, pred)[t]),
{
    lemma_chains_from_links(succ, pred, Seq::new(succ.len(), |k: int| false), 0);
}

/// Where a walk ends: its last segment, or the segment it started from when
/// it took none.
pub open spec fn walk_end(w: Seq<usize>, at: usize) -> usize {
    if w.len() == 0 { at } else { w.last() }
}

/// Every segment listed in `next` for `e` (within `0..used.len()`) is used
/// in `used` or lies in `taken`.
pub open spec fn listed_all_used(next: Seq<Seq<usize>>, e: usize, used: Seq<bool>, taken: Seq<usize>) -> bool {
    e < next.len() ==> forall|k: int| 0 <= k < next[e as int].len() && #[trigger] next[e as int][k] < used.len()
        ==> used[next[e as int][k] as int] || taken.contains(next[e as int][k])
}

proof fn lemma_walk_end(next: Seq<Seq<usize>>, used: Seq<bool>, at: usize)
    ensures
        listed_all_used(next, walk_end(walk(next, used, at), at), used, walk(next, used, at)),
    decreases free_count(used),
{
    let w = walk(next, used, at);
    if at < next.len() {
        lemma_first_free(next[at as int], used);
        if let Some(b) = first_free(next[at as int], used) {
            lemma_free_count_mark(used, b as int);
            let u = used.update(b as int, true);
            lemma_walk_end(next, u, b);
            let rest = walk(next, u, b);
            assert(w == seq![b] + rest);
            let e = walk_end(w, at);
            assert(e == walk_end(rest, b));
            if e < next.len() {
                assert forall|k: int| 0 <= k < next[e as int].len() && #[trigger] next[e as int][k] < used.len()
                    implies used[next[e as int][k] as int] || w.contains(next[e as int][k]) by {
                    let x = next[e as int][k];
                    if x == b {
                        assert(w[0] == b);
                    } else if !used[x as int] {
                        assert(!u[x as int]);
                        assert(rest.contains(x));
                        let j = choose|j: int| 0 <= j < rest.len() && rest[j] == x;
                        assert(w[j + 1] == x);
                    }
                }
            }
        } else {
            assert(w.len() == 0);
        }
    } else {
        assert(w.len() == 0);
    }
}

proof fn lemma_chain_from_ends(succ: Seq<Seq<usize>>, pred: Seq<Seq<usize>>, used: Seq<bool>, s: usize)
    requires
        s < used.len(),
        !used[s as int],
    ensures
        ({
            let (c, u) = chain_from(succ, pred, used, s);
            &&& listed_all_used(pred, c[0], u, Seq::empty())
            &&& listed_all_used(succ, c.last(), u, Seq::empty())
        }),
{
    lemma_chain_from_fresh(succ, pred, used, s);
    let u1 = used.update(s as int, true);
    let f = walk(succ, u1, s);
    lemma_walk_fresh(succ, u1, s);
    lemma_walk_end(succ, u1, s);
    let u2 = mark(u1, f);
    lemma_mark_pointwise(u1, f);
    let b = walk(pred, u2, s);
    lemma_walk_end(pred, u2, s);
    let (c, u) = chain_from(succ, pred, used, s);
    let r = b.reverse();
    assert(c == r + seq![s] + f);
    let first = walk_end(b, s);
    let last = walk_end(f, s);
    assert(c[0] == first) by {
        if b.len() > 0 {
            assert(r[0] == b[b.len() - 1]);
        }
    }
    assert(c.last() == last);
    if first < pred.len() {
        assert forall|k: int| 0 <= k < pred[first as int].len() && #[trigger] pred[first as int][k] < u.len()
            implies u[pred[first as int][k] as int] || Seq::<usize>::empty().contains(pred[first as int][k]) by {
            let x = pred[first as int][k];
            assert(u2[x as int] || b.contains(x));
            assert(u2[x as int] == (u1[x as int] || f.contains(x)));
            if b.contains(x) {
                let j = choose|j: int| 0 <= j < b.len() && b[j] == x;
                assert(c[b.len() - 1 - j] == x);
            } else if f.contains(x) {
                let j = choose|j: int| 0 <= j < f.len() && f[j] == x;
                assert(c[r.len() + 1 + j] == x);
            } else if x == s {
                assert(c[r.len() as int] == s);
            }
            assert(u[x as int] == (used[x as int] || c.contains(x)));
        }
    }
    if last < succ.len() {
        assert forall|k: int| 0 <= k < succ[last as int].len() && #[trigger] succ[last as int][k] < u.len()
            implies u[succ[last as int][k] as int] || Seq::<usize>::empty().contains(succ[last as int][k]) by {
            let x = succ[last as int][k];
            assert(u1[x as int] || f.contains(x));
            if f.contains(x) {
                let j = choose|j: int| 0 <= j < f.len() && f[j] == x;
                assert(c[r.len() + 1 + j] == x);
            } else if x == s {
                assert(c[r.len() as int] == s);
            }
            assert(u[x as int] == (used[x as int] || c.contains(x)));
        }
    }
}

proof fn lemma_joined_take(c: Seq<usize>, rest: Seq<Seq<usize>>, t: int)
    requires
        0 <= t <= rest.len(),
    ensures
        joined((seq![c] + rest).take(t + 1)) == c + joined(rest.take(t)),
{
    let x = (seq![c] + rest).take(t + 1);
    assert(x.drop_first() =~= rest.take(t));
    assert(x[0] == c);
}

/// Polyline `t` of `cs` cannot be extended at either end: what could be
/// joined there is used already or lies in the first `t + 1` polylines.
pub open spec fn ends_closed(succ: Seq<Seq<usize>>, pred: Seq<Seq<usize>>, used: Seq<bool>, cs: Seq<Seq<usize>>, t: int) -> bool {
    &&& listed_all_used(pred, cs[t][0], used, joined(cs.take(t + 1)))
    &&& listed_all_used(succ, cs[t].last(), used, joined(cs.take(t + 1)))
}

proof fn lemma_chains_from_ends(succ: Seq<Seq<usize>>, pred: Seq<Seq<usize>>, used: Seq<bool>, i: nat)
    requires
        used.len() == succ.len(),
        succ.len() <= usize::MAX,
    ensures
        forall|t: int| 0 <= t < chains_from(succ, pred, used, i).len() ==>
            #[trigger] ends_closed(succ, pred, used, chains_from(succ, pred, used, i), t),
    decreases succ.len() - i,
{
    let cs = chains_from(succ, pred, used, i);
    if i >= succ.len() {
        assert(cs.len() == 0);
    } else if used[i as int] {
        lemma_chains_from_ends(succ, pred, used, i + 1);
        assert(cs == chains_from(succ, pred, used, i + 1));
    } else {
        let (c, u) = chain_from(succ, pred, used, i as usize);
        lemma_chain_from_fresh(succ, pred, used, i as usize);
        lemma_chain_from_ends(succ, pred, used, i as usize);
        lemma_chains_from_ends(succ, pred, u, i + 1);
        let rest = chains_from(succ, pred, u, i + 1);
        assert(cs == seq![c] + rest);
        assert forall|t: int| 0 <= t < cs.len() implies #[trigger] ends_closed(succ, pred, used, cs, t) by {
            lemma_joined_take(c, rest, t);
            let done = joined(cs.take(t + 1));
            let jr = joined(rest.take(t));
            assert(done == c + jr);
            // Any segment used after the polyline `c` is used before it, in `c`, or later.
            assert forall|x: usize| x < used.len() && (u[x as int] || jr.contains(x)) implies
                used[x as int] || done.contains(x) by {
                assert(u[x as int] == (used[x as int] || c.contains(x)));
                if c.contains(x) {
                    let j = choose|j: int| 0 <= j < c.len() && c[j] == x;
                    assert(done[j] == x);
                } else if jr.contains(x) {
                    let j = choose|j: int| 0 <= j < jr.len() && jr[j] == x;
                    assert(done[c.len() + j] == x);
                }
            }
            let ct = cs[t];
            if t == 0 {
                assert(ct == c);
                assert(rest.take(0) =~= Seq::<Seq<usize>>::empty());
                assert(jr =~= Seq::<usize>::empty());
            } else {
                assert(ct == rest[t - 1]);
                assert(rest.take(t) == rest.take((t - 1) + 1));
                assert(ends_closed(succ, pred, u, rest, t - 1));
            }
            if ct[0] < pred.len() {
                assert forall|k: int| 0 <= k < pred[ct[0] as int].len() && #[trigger] pred[ct[0] as int][k] < used.len()
                    implies used[pred[ct[0] as int][k] as int] || done.contains(pred[ct[0] as int][k]) by {
                    let x = pred[ct[0] as int][k];
                    if t == 0 {
                        assert(u[x as int] || Seq::<usize>::empty().contains(x));
                    } else {
                        assert(u[x as int] || jr.contains(x));
                    }
                }
            }
            if ct.last() < succ.len() {
                assert forall|k: int| 0 <= k < succ[ct.last() as int].len() && #[trigger] succ[ct.last() as int][k] < used.len()
                    implies used[succ[ct.last() as int][k] as int] || done.contains(succ[ct.last() as int][k]) by {
                    let x = succ[ct.last() as int][k];
                    if t == 0 {
                        assert(u[x as int] || Seq::<usize>::empty().contains(x));
                    } else {
                        assert(u[x as int] || jr.contains(x));
                    }
                }
            }
        }
    }
}

proof fn lemma_in_joined(cs: Seq<Seq<usize>>, t: int, j: int)
    requires
        0 <= t < cs.len(),
        0 <= j < cs[t].len(),
    ensures
        joined(cs).contains(cs[t][j]),
    decreases cs.len(),
{
    if t == 0 {
        assert(joined(cs)[j] == cs[0][j]);
    } else {
        lemma_in_joined(cs.drop_first(), t - 1, j);
        let jr = joined(cs.drop_first());
        let k = choose|k: int| 0 <= k < jr.len() && jr[k] == cs[t][j];
        assert(joined(cs)[cs[0].len() + k] == jr[k]);
    }
}

/// Every polyline is as long as it can be at both ends: once it is built,
/// every segment that could be joined before its first segment or after
/// its last one already lies in it or in an earlier polyline.
pub proof fn lemma_polylines_maximal(succ: Seq<Seq<usize>>, pred: Seq<Seq<usize>>)
    requires
        succ.len() == pred.len(),
        succ.len() <= usize::MAX,
    ensures
        forall|t: int, k: int| 0 <= t < chain_all(succ, pred).len()
            && 0 <= k < pred[(#[trigger] chain_all(succ, pred)[t])[0] as int].len()
            && #[trigger] pred[chain_all(succ, pred)[t][0] as int][k] < succ.len()
            ==> joined(chain_all(succ, pred).take(t + 1)).contains(pred[chain_all(succ, pred)[t][0] as int][k]),
        forall|t: int, k: int| 0 <= t < chain_all(succ, pred).len()
            && 0 <= k < succ[(#[trigger] chain_all(succ, pred)[t]).last() as int].len()
            && #[trigger] succ[chain_all(succ, pred)[t].last() as int][k] < succ.len()
            ==> joined(chain_all(succ, pred).take(t + 1)).contains(succ[chain_all(succ, pred)[t].last() as int][k]),
{
    let used = Seq::new(succ.len(), |k: int| false);
    lemma_chains_from_ends(succ, pred, used, 0);
    lemma_every_segment_once(succ, pred);
    let cs = chain_all(succ, pred);
    assert forall|t: int, k: int| 0 <= t < cs.len()
        && 0 <= k < pred[(#[trigger] cs[t])[0] as int].len()
        && #[trigger] pred[cs[t][0] as int][k] < succ.len()
        implies joined(cs.take(t + 1)).contains(pred[cs[t][0] as int][k]) by {
        lemma_in_joined(cs, t, 0);
        assert(ends_closed(succ, pred, used, cs, t));
    }
    assert forall|t: int, k: int| 0 <= t < cs.len()
        && 0 <= k < succ[(#[trigger] cs[t]).last() as int].len()
        && #[trigger] succ[cs[t].last() as int][k] < succ.len()
        implies joined(cs.take(t + 1)).contains(succ[cs[t].last() as int][k]) by {
        lemma_in_joined(cs, t, cs[t].len() - 1);
        assert(ends_closed(succ, pred, used, cs, t));
    }
}

/// `y` is listed in `cands`, and every segment listed before it (within
/// `0..used.len()`) is used in `used` or lies in `taken`: `y` is the first
/// listed segment still free.
pub open spec fn first_choice(cands: Seq<usize>, y: usize, used: Seq<bool>, taken: Seq<usize>) -> bool {
    exists|k: int| 0 <= k < cands.len() && cands[k] == y && forall|k2: int| 0 <= k2 < k && #[trigger] cands[k2] < used.len()
        ==> used[cands[k2] as int] || taken.contains(cands[k2])
}

proof fn lemma_first_free_first(cands: Seq<usize>, used: Seq<bool>)
    ensures
        first_free(cands, used) matches Some(b) ==> first_choice(cands, b, used, Seq::empty()),
    decreases cands.len(),
{
    if cands.len() > 0 {
        if let Some(b) = first_free(cands, used) {
            if cands[0] < used.len() && !used[cands[0] as int] {
                assert(cands[0] == b);
                assert forall|k2: int| 0 <= k2 < 0 && #[trigger] cands[k2] < used.len()
                    implies used[cands[k2] as int] || Seq::<usize>::empty().contains(cands[k2]) by {}
            } else {
                let d = cands.drop_first();
                lemma_first_free_first(d, used);
                let k = choose|k: int| 0 <= k < d.len() && d[k] == b && forall|k2: int| 0 <= k2 < k && #[trigger] d[k2] < used.len()
                    ==> used[d[k2] as int] || Seq::<usize>::empty().contains(d[k2]);
                assert(cands[k + 1] == b);
                assert forall|k2: int| 0 <= k2 < k + 1 && #[trigger] cands[k2] < used.len()
                    implies used[cands[k2] as int] || Seq::<usize>::empty().contains(cands[k2]) by {
                    if k2 > 0 {
                        assert(cands[k2] == d[k2 - 1]);
                    }
                }
            }
        }
    }
}

proof fn lemma_first_choice_weaken(cands: Seq<usize>, y: usize, used1: Seq<bool>, taken1: Seq<usize>, used2: Seq<bool>, taken2: Seq<usize>)
    requires
        first_choice(cands, y, used1, taken1),
        used1.len() == used2.len(),
        forall|x: usize| x < used1.len() && (used1[x as int] || taken1.contains(x)) ==> #[trigger] used2[x as int] || taken2.contains(x),
    ensures
        first_choice(cands, y, used2, taken2),
{
    let k = choose|k: int| 0 <= k < cands.len() && cands[k] == y && forall|k2: int| 0 <= k2 < k && #[trigger] cands[k2] < used1.len()
        ==> used1[cands[k2] as int] || taken1.contains(cands[k2]);
    assert forall|k2: int| 0 <= k2 < k && #[trigger] cands[k2] < used2.len()
        implies used2[cands[k2] as int] || taken2.contains(cands[k2]) by {
        let x = cands[k2];
        assert(used1[x as int] || taken1.contains(x));
        assert(used2[x as int] || taken2.contains(x));
    }
}

/// The segment from which step `j` of a walk from `at` was taken.
pub open spec fn walk_prev(w: Seq<usize>, at: usize, j: int) -> usize {
    if j == 0 { at } else { w[j - 1] }
}

/// Step `j` of the walk `w` from `at` took the first free segment listed
/// for the segment before it, counting `used` and the steps before `j`.
pub open spec fn step_first(next: Seq<Seq<usize>>, w: Seq<usize>, at: usize, used: Seq<bool>, j: int) -> bool {
    walk_prev(w, at, j) < next.len() && first_choice(next[walk_prev(w, at, j) as int], w[j], used, w.take(j))
}

proof fn lemma_walk_first_choice(next: Seq<Seq<usize>>, used: Seq<bool>, at: usize)
    ensures
        forall|j: int| 0 <= j < walk(next, used, at).len() ==> #[trigger] step_first(next, walk(next, used, at), at, used, j),
    decreases free_count(used),
{
    let w = walk(next, used, at);
    if at < next.len() {
        lemma_first_free(next[at as int], used);
        lemma_first_free_first(next[at as int], used);
        if let Some(b) = first_free(next[at as int], used) {
            lemma_free_count_mark(used, b as int);
            let u = used.update(b as int, true);
            lemma_walk_first_choice(next, u, b);
            let rest = walk(next, u, b);
            assert(w == seq![b] + rest);
            assert forall|j: int| 0 <= j < w.len() implies #[trigger] step_first(next, w, at, used, j) by {
                if j == 0 {
                    assert(w.take(0) =~= Seq::<usize>::empty());
                } else {
                    let j1 = j - 1;
                    assert(walk_prev(w, at, j) == walk_prev(rest, b, j1));
                    assert(w[j] == rest[j1]);
                    assert(step_first(next, rest, b, u, j1));
                    assert(w.take(j) =~= seq![b] + rest.take(j1));
                    assert forall|x: usize| x < u.len() && (u[x as int] || rest.take(j1).contains(x))
                        implies #[trigger] used[x as int] || w.take(j).contains(x) by {
                        if x == b {
                            assert(w.take(j)[0] == b);
                        } else if rest.take(j1).contains(x) {
                            let q = choose|q: int| 0 <= q < rest.take(j1).len() && rest.take(j1)[q] == x;
                            assert(w.take(j)[q + 1] == x);
                        }
                    }
                    lemma_first_choice_weaken(next[walk_prev(rest, b, j1) as int], rest[j1], u, rest.take(j1), used, w.take(j));
                }
            }
        } else {
            assert(w.len() == 0);
        }
    } else {
        assert(w.len() == 0);
    }
}

/// `y` follows `x` as the first free segment listed after `x` in `succ`,
/// or `x` comes before `y` as the first free segment listed before `y` in
/// `pred`, counting `used` and `taken` as not free.
pub open spec fn pair_first(succ: Seq<Seq<usize>>, pred: Seq<Seq<usize>>, x: usize, y: usize, used: Seq<bool>, taken: Seq<usize>) -> bool {
    ||| (x < succ.len() && first_choice(succ[x as int], y, used, taken))
    ||| (y < pred.len() && first_choice(pred[y as int], x, used, taken))
}

proof fn lemma_chain_from_first(succ: Seq<Seq<usize>>, pred: Seq<Seq<usize>>, used: Seq<bool>, s: usize)
    requires
        s < used.len(),
        !used[s as int],
    ensures
        forall|j: int| 0 <= j < chain_from(succ, pred, used, s).0.len() - 1 ==> #[trigger] pair_first(succ, pred,
            chain_from(succ, pred, used, s).0[j], chain_from(succ, pred, used, s).0[j + 1], used, chain_from(succ, pred, used, s).0),
{
    let u1 = used.update(s as int, true);
    let f = walk(succ, u1, s);
    lemma_walk_first_choice(succ, u1, s);
    let u2 = mark(u1, f);
    lemma_mark_pointwise(u1, f);
    let b = walk(pred, u2, s);
    lemma_walk_first_choice(pred, u2, s);
    let c = chain_from(succ, pred, used, s).0;
    let r = b.reverse();
    let n = b.len() as int;
    assert(c == r + seq![s] + f);
    assert forall|j: int| 0 <= j < c.len() - 1 implies #[trigger] pair_first(succ, pred, c[j], c[j + 1], used, c) by {
        if j < n {
            let q = n - 1 - j;
            assert(c[j] == b[q]);
            assert(c[j + 1] == walk_prev(b, s, q));
            assert(step_first(pred, b, s, u2, q));
            assert forall|x: usize| x < u2.len() && (u2[x as int] || b.take(q).contains(x))
                implies #[trigger] used[x as int] || c.contains(x) by {
                if b.take(q).contains(x) {
                    let p = choose|p: int| 0 <= p < b.take(q).len() && b.take(q)[p] == x;
                    assert(c[n - 1 - p] == b[p]);
                } else {
                    assert(u2[x as int] == (u1[x as int] || f.contains(x)));
                    if f.contains(x) {
                        let p = choose|p: int| 0 <= p < f.len() && f[p] == x;
                        assert(c[n + 1 + p] == x);
                    } else if x == s {
                        assert(c[n] == s);
                    }
                }
            }
            lemma_first_choice_weaken(pred[walk_prev(b, s, q) as int], b[q], u2, b.take(q), used, c);
        } else {
            let m = j - n;
            assert(c[j] == walk_prev(f, s, m));
            assert(c[j + 1] == f[m]);
            assert(step_first(succ, f, s, u1, m));
            assert forall|x: usize| x < u1.len() && (u1[x as int] || f.take(m).contains(x))
                implies #[trigger] used[x as int] || c.contains(x) by {
                if f.take(m).contains(x) {
                    let p = choose|p: int| 0 <= p < f.take(m).len() && f.take(m)[p] == x;
                    assert(c[n + 1 + p] == x);
                } else if x == s {
                    assert(c[n] == s);
                }
            }
            lemma_first_choice_weaken(succ[walk_prev(f, s, m) as int], f[m], u1, f.take(m), used, c);
        }
    }
}

proof fn lemma_chains_from_first(succ: Seq<Seq<usize>>, pred: Seq<Seq<usize>>, used: Seq<bool>, i: nat)
    requires
        used.len() == succ.len(),
        succ.len() <= usize::MAX,
    ensures
        forall|t: int, j: int| 0 <= t < chains_from(succ, pred, used, i).len() && 0 <= j < chains_from(succ, pred, used, i)[t].len() - 1
            ==> #[trigger] pair_first(succ, pred, chains_from(succ, pred, used, i)[t][j], chains_from(succ, pred, used, i)[t][j + 1],
                used, joined(chains_from(succ, pred, used, i).take(t + 1))),
    decreases succ.len() - i,
{
    let cs = chains_from(succ, pred, used, i);
    if i >= succ.len() {
        assert(cs.len() == 0);
    } else if used[i as int] {
        lemma_chains_from_first(succ, pred, used, i + 1);
        assert(cs == chains_from(succ, pred, used, i + 1));
    } else {
        let (c, u) = chain_from(succ, pred, used, i as usize);
        lemma_chain_from_fresh(succ, pred, used, i as usize);
        lemma_chain_from_first(succ, pred, used, i as usize);
        lemma_chains_from_first(succ, pred, u, i + 1);
        let rest = chains_from(succ, pred, u, i + 1);
        assert(cs == seq![c] + rest);
        assert forall|t: int, j: int| 0 <= t < cs.len() && 0 <= j < cs[t].len() - 1
            implies #[trigger] pair_first(succ, pred, cs[t][j], cs[t][j + 1], used, joined(cs.take(t + 1))) by {
            lemma_joined_take(c, rest, t);
            let done = joined(cs.take(t + 1));
            let jr = joined(rest.take(t));
            assert(done == c + jr);
            let x = cs[t][j];
            let y = cs[t][j + 1];
            if t == 0 {
                assert(cs[t] == c);
                assert(pair_first(succ, pred, x, y, used, c));
                assert forall|z: usize| z < used.len() && (used[z as int] || c.contains(z))
                    implies #[trigger] used[z as int] || done.contains(z) by {
                    if c.contains(z) {
                        let q = choose|q: int| 0 <= q < c.len() && c[q] == z;
                        assert(done[q] == z);
                    }
                }
                if x < succ.len() && first_choice(succ[x as int], y, used, c) {
                    lemma_first_choice_weaken(succ[x as int], y, used, c, used, done);
                } else {
                    lemma_first_choice_weaken(pred[y as int], x, used, c, used, done);
                }
            } else {
                assert(cs[t] == rest[t - 1]);
                assert(rest.take(t) == rest.take((t - 1) + 1));
                assert(pair_first(succ, pred, rest[t - 1][j], rest[t - 1][j + 1], u, joined(rest.take((t - 1) + 1))));
                assert forall|z: usize| z < u.len() && (u[z as int] || jr.contains(z))
                    implies #[trigger] used[z as int] || done.contains(z) by {
                    assert(u[z as int] == (used[z as int] || c.contains(z)));
                    if c.contains(z) {
                        let q = choose|q: int| 0 <= q < c.len() && c[q] == z;
                        assert(done[q] == z);
                    } else if jr.contains(z) {
                        let q = choose|q: int| 0 <= q < jr.len() && jr[q] == z;
                        assert(done[c.len() + q] == z);
                    }
                }
                if x < succ.len() && first_choice(succ[x as int], y, u, jr) {
                    lemma_first_choice_weaken(succ[x as int], y, u, jr, used, done);
                } else {
                    lemma_first_choice_weaken(pred[y as int], x, u, jr, used, done);
                }
            }
        }
    }
}

/// No segment is used before the first polyline is started.
pub open spec fn none_used(n: nat) -> Seq<bool> {
    Seq::new(n, |k: int| false)
}

/// Joining is greedy: in every polyline, each segment is the first segment
/// listed after the one before it (in `succ`) that was still free, or the
/// one before it is the first segment listed before it (in `pred`) that
/// was still free; every segment listed ahead of the choice already lies in
/// this polyline or an earlier one.
pub proof fn lemma_polylines_greedy(succ: Seq<Seq<usize>>, pred: Seq<Seq<usize>>)
    requires
        succ.len() <= usize::MAX,
    ensures
        forall|t: int, j: int| 0 <= t < chain_all(succ, pred).len() && 0 <= j < chain_all(succ, pred)[t].len() - 1
            ==> #[trigger] pair_first(succ, pred, chain_all(succ, pred)[t][j], chain_all(succ, pred)[t][j + 1],
                none_used(succ.len()), joined(chain_all(succ, pred).take(t + 1))),
{
    lemma_chains_from_first(succ, pred, none_used(succ.len()), 0);
}

/// `m` is the lowest-numbered segment that is neither used nor in `prior`.
pub open spec fn lowest_left(used: Seq<bool>, prior: Seq<usize>, m: usize) -> bool {
    &&& m < used.len()
    &&& !used[m as int]
    &&& !prior.contains(m)
    &&& forall|k: usize| k < m ==> used[k as int] || #[trigger] prior.contains(k)
}

proof fn lemma_chains_from_seeds(succ: Seq<Seq<usize>>, pred: Seq<Seq<usize>>, used: Seq<bool>, i: nat)
    requires
        used.len() == succ.len(),
        succ.len() <= usize::MAX,
        forall|k: usize| k < i && k < used.len() ==> #[trigger] used[k as int],
    ensures
        forall|t: int, m: usize| 0 <= t < chains_from(succ, pred, used, i).len()
            && #[trigger] lowest_left(used, joined(chains_from(succ, pred, used, i).take(t)), m)
            ==> chains_from(succ, pred, used, i)[t].contains(m),
    decreases succ.len() - i,
{
    let cs = chains_from(succ, pred, used, i);
    if i >= succ.len() {
        assert(cs.len() == 0);
    } else if used[i as int] {
        lemma_chains_from_seeds(succ, pred, used, i + 1);
        assert(cs == chains_from(succ, pred, used, i + 1));
    } else {
        let (c, u) = chain_from(succ, pred, used, i as usize);
        lemma_chain_from_fresh(succ, pred, used, i as usize);
        assert forall|k: usize| k < i + 1 && k < u.len() implies #[trigger] u[k as int] by {
            assert(u[k as int] == (used[k as int] || c.contains(k)));
            if k == i as usize {
                assert(c.contains(i as usize));
            }
        }
        lemma_chains_from_seeds(succ, pred, u, i + 1);
        let rest = chains_from(succ, pred, u, i + 1);
        assert(cs == seq![c] + rest);
        assert forall|t: int, m: usize| 0 <= t < cs.len() && #[trigger] lowest_left(used, joined(cs.take(t)), m)
            implies cs[t].contains(m) by {
            let prior = joined(cs.take(t));
            if t == 0 {
                assert(cs.take(0) =~= Seq::<Seq<usize>>::empty());
                assert(prior =~= Seq::<usize>::empty());
                if m != i as usize {
                    if m > i as usize {
                        assert(used[i as int] || prior.contains(i as usize));
                    }
                }
                assert(cs[0] == c);
            } else {
                lemma_joined_take(c, rest, t - 1);
                let pr = joined(rest.take(t - 1));
                assert(prior == c + pr);
                assert(cs[t] == rest[t - 1]);
                assert(!c.contains(m)) by {
                    if c.contains(m) {
                        let q = choose|q: int| 0 <= q < c.len() && c[q] == m;
                        assert(prior[q] == m);
                    }
                }
                assert(!pr.contains(m)) by {
                    if pr.contains(m) {
                        let q = choose|q: int| 0 <= q < pr.len() && pr[q] == m;
                        assert(prior[c.len() + q] == m);
                    }
                }
                assert(u[m as int] == (used[m as int] || c.contains(m)));
                assert forall|k: usize| k < m implies u[k as int] || #[trigger] pr.contains(k) by {
                    assert(used[k as int] || prior.contains(k));
                    assert(k < u.len());
                    assert(u[k as int] == (used[k as int] || c.contains(k)));
                    if prior.contains(k) {
                        let q = choose|q: int| 0 <= q < prior.len() && prior[q] == k;
                        if q >= c.len() {
                            assert(pr[q - c.len()] == k);
                        } else {
                            assert(c[q] == k);
                        }
                    }
                }
                assert(lowest_left(u, joined(rest.take(t - 1)), m));
            }
        }
    }
}

/// Polylines are started in segment order: each polyline holds the
/// lowest-numbered segment that no earlier polyline holds.
pub proof fn lemma_polylines_in_order(succ: Seq<Seq<usize>>, pred: Seq<Seq<usize>>)
    requires
        succ.len() <= usize::MAX,
    ensures
        forall|t: int, m: usize| 0 <= t < chain_all(succ, pred).len()
            && #[trigger] lowest_left(none_used(succ.len()), joined(chain_all(succ, pred).take(t)), m)
            ==> chain_all(succ, pred)[t].contains(m),
{
    lemma_chains_from_seeds(succ, pred, none_used(succ.len()), 0);
}

} // verus!
