//! Removal of repeated line segments.
//!
//! A segment is identified by a key for each direction of travel: the key
//! of its endpoints in order and the key of its endpoints reversed. Keys are
//! integers handed in by the caller; two segments share a key exactly when
//! their rounded endpoint texts agree.
use vstd::prelude::*;
use std::collections::HashSet;
use crate::geometry::Line;

verus! {

broadcast use vstd::std_specs::hash::group_hash_axioms;

/// The positions of the segments that are kept: a segment is kept unless
/// an earlier kept segment's forward key equals its forward or its
/// backward key.
pub open spec fn kept_indices(forward: Seq<u64>, backward: Seq<u64>, n: nat) -> Seq<int>
    decreases n,
{
    if n == 0 {
        Seq::empty()
    } else {
        let prev = kept_indices(forward, backward, (n - 1) as nat);
        let i = n - 1;
        if exists|k: int| 0 <= k < prev.len()
            && (forward[prev[k]] == forward[i] || forward[prev[k]] == backward[i]) {
            prev
        } else {
            prev.push(i)
        }
    }
}

/// The forward keys of the kept segments.
pub open spec fn seen_keys(forward: Seq<u64>, kept: Seq<int>) -> Set<u64> {
    Set::new(|key: u64| exists|k: int| 0 <= k < kept.len() && forward[kept[k]] == key)
}

/// Kept positions are increasing and below `n`.
pub proof fn lemma_kept_indices_increasing(forward: Seq<u64>, backward: Seq<u64>, n: nat)
    ensures
        forall|k: int| 0 <= k < kept_indices(forward, backward, n).len() ==>
            0 <= #[trigger] kept_indices(forward, backward, n)[k] < n,
        forall|k1: int, k2: int| 0 <= k1 < k2 < kept_indices(forward, backward, n).len() ==>
            #[trigger] kept_indices(forward, backward, n)[k1] < #[trigger] kept_indices(forward, backward, n)[k2],
    decreases n,
{
    if n > 0 {
        let prev = kept_indices(forward, backward, (n - 1) as nat);
        let cur = kept_indices(forward, backward, n);
        lemma_kept_indices_increasing(forward, backward, (n - 1) as nat);
        assert(cur == prev || cur == prev.push(n - 1));
    }
}

/// No two kept segments are the same segment in either direction: a later
/// kept segment's forward and backward keys both differ from an earlier
/// kept segment's forward key.
pub proof fn lemma_kept_distinct(forward: Seq<u64>, backward: Seq<u64>, n: nat)
    ensures
        forall|k1: int, k2: int| 0 <= k1 < k2 < kept_indices(forward, backward, n).len() ==> {
            let a = #[trigger] kept_indices(forward, backward, n)[k1];
            let b = #[trigger] kept_indices(forward, backward, n)[k2];
            forward[a] != forward[b] && forward[a] != backward[b]
        },
    decreases n,
{
    if n > 0 {
        let prev = kept_indices(forward, backward, (n - 1) as nat);
        lemma_kept_distinct(forward, backward, (n - 1) as nat);
        let cur = kept_indices(forward, backward, n);
        assert forall|k1: int, k2: int| 0 <= k1 < k2 < cur.len() implies {
            let a = #[trigger] cur[k1];
            let b = #[trigger] cur[k2];
            forward[a] != forward[b] && forward[a] != backward[b]
        } by {
            if k2 == prev.len() {
                assert(cur[k1] == prev[k1]);
            } else {
                assert(cur[k1] == prev[k1] && cur[k2] == prev[k2]);
            }
        }
    }
}

/// Every dropped segment repeats an earlier kept one: its forward or
/// backward key equals the forward key of a kept segment before it.
pub proof fn lemma_dropped_repeats(forward: Seq<u64>, backward: Seq<u64>, n: nat, i: int)
    requires
        0 <= i < n,
        forall|k: int| 0 <= k < kept_indices(forward, backward, n).len() ==> kept_indices(forward, backward, n)[k] != i,
    ensures
        exists|k: int| 0 <= k < kept_indices(forward, backward, n).len() && kept_indices(forward, backward, n)[k] < i
            && (forward[kept_indices(forward, backward, n)[k]] == forward[i]
                || forward[kept_indices(forward, backward, n)[k]] == backward[i]),
    decreases n,
{
    let prev = kept_indices(forward, backward, (n - 1) as nat);
    let cur = kept_indices(forward, backward, n);
    lemma_kept_indices_increasing(forward, backward, (n - 1) as nat);
    if i == n - 1 {
        if !(exists|k: int| 0 <= k < prev.len() && (forward[prev[k]] == forward[i] || forward[prev[k]] == backward[i])) {
            assert(cur[prev.len() as int] == i);
        }
        let k = choose|k: int| 0 <= k < prev.len() && (forward[prev[k]] == forward[i] || forward[prev[k]] == backward[i]);
        assert(cur[k] == prev[k]);
    } else {
        assert forall|k: int| 0 <= k < prev.len() implies prev[k] != i by {
            assert(cur[k] == prev[k]);
        }
        lemma_dropped_repeats(forward, backward, (n - 1) as nat, i);
        let k = choose|k: int| 0 <= k < prev.len() && prev[k] < i
            && (forward[prev[k]] == forward[i] || forward[prev[k]] == backward[i]);
        assert(cur[k] == prev[k]);
    }
}

/// Remove repeated segments, keeping the first of each.
///
/// `forward[i]` and `backward[i]` are the keys of segment `i` in its own
/// direction and reversed. A segment is kept when neither of its keys is
/// among the forward keys of the segments kept before it.
pub fn deduplicate_lines<T: Copy>(lines: Vec<Line<T>>, forward: &Vec<u64>, backward: &Vec<u64>) -> (res: Vec<Line<T>>)
    requires
        forward@.len() == lines@.len(),
        backward@.len() == lines@.len(),
    ensures
        res@ == kept_indices(forward@, backward@, lines@.len()).map_values(|i: int| lines@[i]),
{
    let n = lines.len();
    let mut seen: HashSet<u64> = HashSet::new();
    let mut res: Vec<Line<T>> = Vec::new();
    let mut i: usize = 0;
    while i < n
        invariant
            n == lines@.len(),
            forward@.len() == n,
            backward@.len() == n,
            i <= n,
            seen@ == seen_keys(forward@, kept_indices(forward@, backward@, i as nat)),
            res@ == kept_indices(forward@, backward@, i as nat).map_values(|j: int| lines@[j]),
        decreases n - i,
    {
        let ghost prev = kept_indices(forward@, backward@, i as nat);
        let key1 = forward[i];
        let key2 = backward[i];
        let repeated = seen.contains(&key1) || seen.contains(&key2);
        proof {
            lemma_kept_indices_increasing(forward@, backward@, i as nat);
            assert(seen@.contains(key1) <==> exists|k: int| 0 <= k < prev.len() && forward@[prev[k]] == key1);
            assert(seen@.contains(key2) <==> exists|k: int| 0 <= k < prev.len() && forward@[prev[k]] == key2);
        }
        if !repeated {
            seen.insert(key1);
            res.push(lines[i]);
            proof {
                let cur = kept_indices(forward@, backward@, i as nat + 1);
                assert(cur == prev.push(i as int));
                assert(seen@ =~= seen_keys(forward@, cur)) by {
                    assert forall|key: u64| seen_keys(forward@, cur).contains(key) implies seen@.contains(key) by {
                        let k = choose|k: int| 0 <= k < cur.len() && forward@[cur[k]] == key;
                        if k < prev.len() {
                            assert(seen_keys(forward@, prev).contains(key));
                        }
                    }
                    assert forall|key: u64| seen@.contains(key) implies seen_keys(forward@, cur).contains(key) by {
                        if key == key1 {
                            assert(cur[prev.len() as int] == i);
                        } else {
                            let k = choose|k: int| 0 <= k < prev.len() && forward@[prev[k]] == key;
                            assert(cur[k] == prev[k]);
                        }
                    }
                }
                assert(res@ =~= cur.map_values(|j: int| lines@[j]));
            }
        } else {
            proof {
                assert(kept_indices(forward@, backward@, i as nat + 1) == prev);
            }
        }
        i = i + 1;
    }
    res
}

} // verus!
