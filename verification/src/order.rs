//! Polygon ordering for minimising plotter travel.
//!
//! The greedy nearest-neighbour ordering works on travel keys: one key per
//! polygon for its distance from the origin, and one key per ordered pair of
//! polygons for the distance between them. Keys are compared as integers;
//! a smaller key means a shorter distance.
use vstd::prelude::*;
use vstd::set_lib::{lemma_int_range, lemma_len_subset, lemma_subset_equality, set_int_range};
use vstd::seq_lib::seq_to_set_is_finite;
use std::collections::HashSet;
use crate::text::{all_ascii, ascii_lower, spec_to_lowercase, str_equal, to_lowercase};

verus! {

broadcast use vstd::std_specs::hash::group_hash_axioms;

/// Ordering strategy for polygons.
#[derive(Clone, Copy, Debug, PartialEq, Eq, Structural)]
pub enum OrderingStrategy {
    /// Keep the document order
    Document,
    /// Nearest neighbor greedy optimization
    NearestNeighbor,
}

impl Default for OrderingStrategy {
    fn default() -> (s: Self)
        ensures
            s == OrderingStrategy::Document,
    {
        OrderingStrategy::Document
    }
}

/// The name of a strategy.
pub open spec fn strategy_name(s: OrderingStrategy) -> Seq<char> {
    match s {
        OrderingStrategy::Document => "document"@,
        OrderingStrategy::NearestNeighbor => "nearest"@,
    }
}

/// The strategy that a lower-case alias stands for.
pub open spec fn strategy_for_alias(s: Seq<char>) -> Option<OrderingStrategy> {
    if s == "document"@ || s == "doc"@ || s == "original"@ {
        Some(OrderingStrategy::Document)
    } else if s == "nearest"@ || s == "nn"@ || s == "nearest-neighbor"@ {
        Some(OrderingStrategy::NearestNeighbor)
    } else {
        None
    }
}

impl OrderingStrategy {
    /// Get strategy name as string.
    pub fn name(&self) -> (res: &'static str)
        ensures
            res@ == strategy_name(*self),
    {
        match self {
            OrderingStrategy::Document => "document",
            OrderingStrategy::NearestNeighbor => "nearest",
        }
    }

    /// Parse strategy from string (case-insensitive).
    pub fn from_name(name: &str) -> (res: Option<OrderingStrategy>)
        ensures
            res == strategy_for_alias(spec_to_lowercase(name@)),
            all_ascii(name@) ==> res == strategy_for_alias(name@.map_values(|c: char| ascii_lower(c))),
    {
        let lower = to_lowercase(name);
        let s = lower.as_str();
        if str_equal(s, "document") || str_equal(s, "doc") || str_equal(s, "original") {
            Some(OrderingStrategy::Document)
        } else if str_equal(s, "nearest") || str_equal(s, "nn") || str_equal(s, "nearest-neighbor") {
            Some(OrderingStrategy::NearestNeighbor)
        } else {
            None
        }
    }

    /// All available strategies.
    pub fn all() -> (res: &'static [OrderingStrategy])
        ensures
            res@ == seq![OrderingStrategy::Document, OrderingStrategy::NearestNeighbor],
    {
        &[OrderingStrategy::Document, OrderingStrategy::NearestNeighbor]
    }
}


/// Parsing the name of a strategy gives the strategy back: every name is
/// ASCII and already lower case, and it is an alias of its own strategy.
pub proof fn lemma_strategy_name_roundtrip(s: OrderingStrategy)
    ensures
        all_ascii(strategy_name(s)),
        strategy_name(s).map_values(|c: char| ascii_lower(c)) == strategy_name(s),
        strategy_for_alias(strategy_name(s)) == Some(s),
{
    reveal_strlit("document");
    reveal_strlit("doc");
    reveal_strlit("original");
    reveal_strlit("nearest");
    reveal_strlit("nn");
    reveal_strlit("nearest-neighbor");
    let n = strategy_name(s);
    assert(n.map_values(|c: char| ascii_lower(c)) =~= n);
}

/// Every alias names the same strategy as the full name it stands for.
pub proof fn lemma_strategy_aliases()
    ensures
        strategy_for_alias("doc"@) == Some(OrderingStrategy::Document) && strategy_name(OrderingStrategy::Document) == "document"@,
        strategy_for_alias("original"@) == Some(OrderingStrategy::Document),
        strategy_for_alias("nn"@) == Some(OrderingStrategy::NearestNeighbor) && strategy_name(OrderingStrategy::NearestNeighbor) == "nearest"@,
        strategy_for_alias("nearest-neighbor"@) == Some(OrderingStrategy::NearestNeighbor),
{
    reveal_strlit("document");
    reveal_strlit("doc");
    reveal_strlit("original");
    reveal_strlit("nearest");
    reveal_strlit("nn");
    reveal_strlit("nearest-neighbor");
    assert("doc"@.len() == 3);
    assert("original"@.len() == 8);
    assert("document"@.len() == 8);
    assert("original"@[0] != "document"@[0]);
    assert("nn"@.len() == 2);
    assert("nearest"@.len() == 7);
    assert("nearest-neighbor"@.len() == 16);
}

/// `r` is the first index, among those not yet taken, whose key is the
/// smallest among those not yet taken.
pub open spec fn is_best_remaining(keys: Seq<u64>, taken: Seq<usize>, r: int) -> bool {
    &&& 0 <= r < keys.len()
    &&& !taken.contains(r as usize)
    &&& forall|j: int|
        0 <= j < keys.len() && !taken.contains(j as usize) ==> keys[r] <= #[trigger] keys[j]
    &&& forall|j: int|
        0 <= j < r && !taken.contains(j as usize) ==> keys[r] < #[trigger] keys[j]
}

/// Travel keys are well formed for `n` polygons: one origin key each and a
/// full `n` by `n` table of pairwise keys.
pub open spec fn keys_wf(origin: Seq<u64>, travel: Seq<Vec<u64>>) -> bool {
    &&& travel.len() == origin.len()
    &&& forall|i: int| 0 <= i < travel.len() ==> (#[trigger] travel[i])@.len() == origin.len()
}

/// The keys against which the `i`-th pick of a greedy ordering is made:
/// the origin keys for the first pick, and the keys from the previous pick
/// afterwards.
pub open spec fn step_keys(origin: Seq<u64>, travel: Seq<Vec<u64>>, order: Seq<usize>, i: int) -> Seq<u64> {
    if i == 0 {
        origin
    } else {
        travel[order[i - 1] as int]@
    }
}

/// `order` is the greedy nearest-neighbour ordering: it starts with the
/// polygon nearest to the origin, and each next polygon is the one nearest
/// to the previous among those not yet visited (the first such index on a
/// tie), until every polygon has been visited.
pub open spec fn is_nearest_neighbor_order(origin: Seq<u64>, travel: Seq<Vec<u64>>, order: Seq<usize>) -> bool {
    &&& order.len() == origin.len()
    &&& forall|i: int| 0 <= i < order.len() ==>
        #[trigger] is_best_remaining(step_keys(origin, travel, order, i), order.take(i), order[i] as int)
}

/// `order` lists each of `0..n` exactly once.
pub open spec fn is_permutation(order: Seq<usize>, n: nat) -> bool {
    &&& order.len() == n
    &&& order.no_duplicates()
    &&& forall|k: usize| k < n ==> #[trigger] order.contains(k)
    &&& forall|i: int| 0 <= i < order.len() ==> order[i] < n
}

/// A sequence of distinct indices below `n` holds at most `n` of them, and
/// holds every one of them when it has exactly `n`.
pub proof fn lemma_distinct_indices(s: Seq<usize>, n: nat)
    requires
        n <= usize::MAX,
        s.no_duplicates(),
        forall|i: int| 0 <= i < s.len() ==> s[i] < n,
    ensures
        s.len() <= n,
        s.len() == n ==> forall|k: usize| k < n ==> #[trigger] s.contains(k),
        (forall|k: usize| k < n ==> #[trigger] s.contains(k)) ==> s.len() >= n,
{
    let f = |x: usize| x as int;
    let si = s.map_values(f);
    s.lemma_no_duplicates_injective(f);
    si.unique_seq_to_set();
    let range = set_int_range(0, n as int);
    lemma_int_range(0, n as int);
    assert(si.to_set().subset_of(range)) by {
        assert forall|v: int| si.to_set().contains(v) implies range.contains(v) by {
            let i = choose|i: int| 0 <= i < si.len() && si[i] == v;
            assert(s[i] < n);
        }
    }
    lemma_len_subset(si.to_set(), range);
    seq_to_set_is_finite(si);
    if forall|k: usize| k < n ==> #[trigger] s.contains(k) {
        assert(range.subset_of(si.to_set())) by {
            assert forall|k: int| range.contains(k) implies si.to_set().contains(k) by {
                assert(s.contains(k as usize));
                let i = choose|i: int| 0 <= i < s.len() && s[i] == k as usize;
                assert(si[i] == k);
            }
        }
        lemma_len_subset(range, si.to_set());
    }
    if s.len() == n {
        lemma_subset_equality(si.to_set(), range);
        assert forall|k: usize| k < n implies #[trigger] s.contains(k) by {
            assert(range.contains(k as int));
            assert(si.to_set().contains(k as int));
            let i = choose|i: int| 0 <= i < si.len() && si[i] == k as int;
            assert(s[i] == k);
        }
    }
}

/// The remaining index whose key is smallest (the first on a tie).
fn nearest_unvisited(keys: &Vec<u64>, remaining: &HashSet<usize>, Ghost(taken): Ghost<Seq<usize>>) -> (r: usize)
    requires
        forall|j: usize| j < keys@.len() ==> (#[trigger] remaining@.contains(j) <==> !taken.contains(j)),
        exists|j: usize| j < keys@.len() && #[trigger] remaining@.contains(j),
    ensures
        is_best_remaining(keys@, taken, r as int),
{
    let n = keys.len();
    let mut best: usize = 0;
    let mut found = false;
    let mut j: usize = 0;
    while j < n
        invariant
            n == keys@.len(),
            j <= n,
            forall|k: usize| k < n ==> (#[trigger] remaining@.contains(k) <==> !taken.contains(k)),
            found ==> best < j && remaining@.contains(best),
            found ==> forall|k: usize| k < j && #[trigger] remaining@.contains(k) ==> keys@[best as int] <= keys@[k as int],
            found ==> forall|k: usize| k < best && #[trigger] remaining@.contains(k) ==> keys@[best as int] < keys@[k as int],
            !found ==> forall|k: usize| k < j ==> !#[trigger] remaining@.contains(k),
        decreases n - j,
    {
        if remaining.contains(&j) {
            if !found || keys[j] < keys[best] {
                best = j;
                found = true;
            }
        }
        j = j + 1;
    }
    assert(found);
    assert forall|k: int| 0 <= k < n && !taken.contains(k as usize) implies keys@[best as int] <= #[trigger] keys@[k] by {
        assert(remaining@.contains(k as usize));
    }
    assert forall|k: int| 0 <= k < best && !taken.contains(k as usize) implies keys@[best as int] < #[trigger] keys@[k] by {
        assert(remaining@.contains(k as usize));
    }
    best
}

/// Order polygons using the nearest-neighbour heuristic.
///
/// `origin_keys[i]` ranks the distance of polygon `i` from the origin, and
/// `travel_keys[i][j]` the distance from polygon `i` to polygon `j`. The
/// ordering starts at the polygon nearest to the origin and then repeatedly
/// moves to the nearest polygon not yet visited.
///
/// Returns indices into the polygon list in the visiting order.
pub fn order_nearest_neighbor(origin_keys: &Vec<u64>, travel_keys: &Vec<Vec<u64>>) -> (order: Vec<usize>)
    requires
        keys_wf(origin_keys@, travel_keys@),
    ensures
        is_nearest_neighbor_order(origin_keys@, travel_keys@, order@),
        is_permutation(order@, origin_keys@.len()),
{
    let n = origin_keys.len();
    let mut remaining: HashSet<usize> = HashSet::new();
    let mut i: usize = 0;
    while i < n
        invariant
            i <= n,
            forall|k: usize| remaining@.contains(k) <==> k < i,
        decreases n - i,
    {
        remaining.insert(i);
        i = i + 1;
    }
    let mut order: Vec<usize> = Vec::new();
    while order.len() < n
        invariant
            n == origin_keys@.len(),
            keys_wf(origin_keys@, travel_keys@),
            forall|k: usize| remaining@.contains(k) ==> k < n,
            order@.len() <= n,
            order@.no_duplicates(),
            forall|i: int| 0 <= i < order@.len() ==> order@[i] < n,
            forall|k: usize| k < n ==> (#[trigger] remaining@.contains(k) <==> !order@.contains(k)),
            forall|i: int| 0 <= i < order@.len() ==>
                #[trigger] is_best_remaining(step_keys(origin_keys@, travel_keys@, order@, i), order@.take(i), order@[i] as int),
        decreases n - order@.len(),
    {
        proof {
            if forall|k: usize| k < n ==> !#[trigger] remaining@.contains(k) {
                assert forall|k: usize| k < n implies #[trigger] order@.contains(k) by {
                    assert(!remaining@.contains(k));
                }
                lemma_distinct_indices(order@, n as nat);
            }
        }
        let next = if order.len() == 0 {
            nearest_unvisited(origin_keys, &remaining, Ghost(order@))
        } else {
            let last = order[order.len() - 1];
            nearest_unvisited(&travel_keys[last], &remaining, Ghost(order@))
        };
        let ghost old_order = order@;
        order.push(next);
        remaining.remove(&next);
        proof {
            assert forall|k: usize| k < n implies (#[trigger] remaining@.contains(k) <==> !order@.contains(k)) by {
                if k == next {
                    assert(order@[old_order.len() as int] == next);
                } else {
                    if old_order.contains(k) {
                        let i = choose|i: int| 0 <= i < old_order.len() && old_order[i] == k;
                        assert(order@[i] == k);
                    }
                    if order@.contains(k) {
                        let i = choose|i: int| 0 <= i < order@.len() && order@[i] == k;
                        assert(i < old_order.len());
                        assert(old_order[i] == k);
                    }
                }
            }
            assert(order@.take(old_order.len() as int) =~= old_order);
            assert forall|i: int| 0 <= i < order@.len() implies
                #[trigger] is_best_remaining(step_keys(origin_keys@, travel_keys@, order@, i), order@.take(i), order@[i] as int) by {
                if i < old_order.len() {
                    assert(order@.take(i) =~= old_order.take(i));
                    assert(step_keys(origin_keys@, travel_keys@, order@, i) == step_keys(origin_keys@, travel_keys@, old_order, i));
                }
            }
        }
    }
    proof {
        lemma_distinct_indices(order@, n as nat);
    }
    order
}

/// Apply an ordering strategy to get polygon indices.
///
/// The document order lists `0..n`; the nearest-neighbour order is the
/// greedy ordering over the travel keys.
pub fn order_polygons(origin_keys: &Vec<u64>, travel_keys: &Vec<Vec<u64>>, strategy: OrderingStrategy) -> (order: Vec<usize>)
    requires
        keys_wf(origin_keys@, travel_keys@),
    ensures
        strategy == OrderingStrategy::Document ==> order@ == Seq::new(origin_keys@.len(), |i: int| i as usize),
        strategy == OrderingStrategy::NearestNeighbor ==> is_nearest_neighbor_order(origin_keys@, travel_keys@, order@),
        is_permutation(order@, origin_keys@.len()),
{
    match strategy {
        OrderingStrategy::Document => {
            let n = origin_keys.len();
            let mut order: Vec<usize> = Vec::new();
            let mut i: usize = 0;
            while i < n
                invariant
                    i <= n,
                    order@ =~= Seq::new(i as nat, |k: int| k as usize),
                decreases n - i,
            {
                order.push(i);
                i = i + 1;
            }
            proof {
                assert forall|k: usize| k < n implies #[trigger] order@.contains(k) by {
                    assert(order@[k as int] == k);
                }
            }
            order
        }
        OrderingStrategy::NearestNeighbor => order_nearest_neighbor(origin_keys, travel_keys),
    }
}

} // verus!
