//! Deterministic pseudo-random number generators.
use vstd::prelude::*;
use vstd::arithmetic::div_mod::{
    lemma_add_mod_noop, lemma_div_denominator, lemma_fundamental_div_mod,
    lemma_fundamental_div_mod_converse, lemma_mod_bound, lemma_mod_multiples_basic,
};
use vstd::arithmetic::power2::{lemma2_to64, lemma2_to64_rest, lemma_pow2_unfold, pow2};

verus! {

/// `2^64`.
pub open spec fn two64() -> nat {
    0x1_0000_0000_0000_0000
}

/// One step of the linear congruential generator (Numerical Recipes
/// parameters) on a 64-bit state.
pub open spec fn lcg_next(s: u64) -> u64 {
    ((s as nat * 6364136223846793005 + 1442695040888963407) % two64()) as u64
}

/// The state a generator made by `Rng::new(seed)` starts from.
pub open spec fn seed_state(seed: u64) -> u64 {
    ((seed as nat + 1) % two64()) as u64
}

/// A fast, deterministic pseudo-random number generator.
///
/// Uses a Linear Congruential Generator (LCG) with parameters from
/// Numerical Recipes.
#[derive(Clone)]
pub struct Rng {
    state: u64,
}

impl Rng {
    /// The generator's current state.
    pub closed spec fn state(&self) -> u64 {
        self.state
    }

    /// Create a new RNG with the given seed.
    ///
    /// The same seed will always produce the same sequence of numbers.
    pub fn new(seed: u64) -> (r: Self)
        ensures
            r.state() == seed_state(seed),
    {
        Rng { state: seed.wrapping_add(1) }
    }

    /// Get the next raw u64 value: the next state of the generator.
    pub fn next_u64(&mut self) -> (r: u64)
        ensures
            final(self).state() == lcg_next(old(self).state()),
            r == final(self).state(),
    {
        let s = self.state;
        let a = s.wrapping_mul(6364136223846793005);
        let b = a.wrapping_add(1442695040888963407);
        proof {
            lemma_add_mod_noop((s as nat * 6364136223846793005) as int, 1442695040888963407, two64() as int);
            lemma_mod_bound(1442695040888963407, two64() as int);
        }
        self.state = b;
        b
    }
}

/// The state after `n` steps of the generator from state `s`.
pub open spec fn lcg_iter(s: u64, n: nat) -> u64
    decreases n,
{
    if n == 0 {
        s
    } else {
        lcg_next(lcg_iter(s, (n - 1) as nat))
    }
}

/// The same seed always produces the same sequence of numbers. A run of a
/// generator made by `Rng::new(seed)` is the list of its states: the state
/// after `i` draws is entry `i`, and each `next_u64` moves to the next
/// state and returns it. Then the `k`-th draw is `lcg_iter(seed_state(seed),
/// k)`, so two runs from one seed agree at every draw.
pub proof fn lemma_same_seed_same_draws(seed: u64, run1: Seq<u64>, run2: Seq<u64>, k: nat)
    requires
        k < run1.len(),
        k < run2.len(),
        run1[0] == seed_state(seed),
        run2[0] == seed_state(seed),
        forall|i: int| 0 <= i < k ==> #[trigger] run1[i + 1] == lcg_next(run1[i]),
        forall|i: int| 0 <= i < k ==> #[trigger] run2[i + 1] == lcg_next(run2[i]),
    ensures
        run1[k as int] == lcg_iter(seed_state(seed), k),
        run1[k as int] == run2[k as int],
    decreases k,
{
    if k > 0 {
        let p = (k - 1) as nat;
        lemma_same_seed_same_draws(seed, run1, run2, p);
        assert(run1[p as int + 1] == lcg_next(run1[p as int]));
        assert(run2[p as int + 1] == lcg_next(run2[p as int]));
    }
}

/// The generator's step is one to one: the multiplier is odd, so it has an
/// inverse modulo `2^64`.
pub proof fn lemma_lcg_injective(s1: u64, s2: u64)
    requires
        lcg_next(s1) == lcg_next(s2),
    ensures
        s1 == s2,
{
    let m: int = two64() as int;
    let a: int = 6364136223846793005;
    let c: int = 1442695040888963407;
    let inv: int = 13877824140714322085;
    let k: int = (a * inv - 1) / m;
    assert(a * inv == 1 + k * m);
    let x1: int = s1 as int * a + c;
    let x2: int = s2 as int * a + c;
    lemma_fundamental_div_mod(x1, m);
    lemma_fundamental_div_mod(x2, m);
    let q: int = x1 / m - x2 / m;
    assert(x1 % m == x2 % m);
    let d: int = s1 as int - s2 as int;
    assert(d * a == m * q) by (nonlinear_arith)
        requires
            x1 == m * (x1 / m) + x1 % m,
            x2 == m * (x2 / m) + x2 % m,
            x1 % m == x2 % m,
            x1 == s1 as int * a + c,
            x2 == s2 as int * a + c,
            d == s1 as int - s2 as int,
            q == x1 / m - x2 / m,
    ;
    assert(d == m * (q * inv - d * k)) by (nonlinear_arith)
        requires
            d * a == m * q,
            a * inv == 1 + k * m,
    ;
    assert(d == 0) by (nonlinear_arith)
        requires
            d == m * (q * inv - d * k),
            -m < d < m,
            m > 0,
    ;
}

/// Generators seeded differently never draw the same value at the same
/// step: the states they start from differ, and every step is one to one.
pub proof fn lemma_distinct_seeds_distinct_draws(seed1: u64, seed2: u64, n: nat)
    requires
        seed1 != seed2,
    ensures
        lcg_iter(seed_state(seed1), n) != lcg_iter(seed_state(seed2), n),
    decreases n,
{
    if n == 0 {
        assert(seed_state(seed1) != seed_state(seed2));
    } else {
        lemma_distinct_seeds_distinct_draws(seed1, seed2, (n - 1) as nat);
        let t1 = lcg_iter(seed_state(seed1), (n - 1) as nat);
        let t2 = lcg_iter(seed_state(seed2), (n - 1) as nat);
        if lcg_next(t1) == lcg_next(t2) {
            lemma_lcg_injective(t1, t2);
        }
    }
}

/// `2^53`: one more than the largest significand of a double-precision
/// number.
pub open spec fn two53() -> nat {
    0x20_0000_0000_0000
}

/// `p` is a power of two.
pub open spec fn is_pow_two(p: nat) -> bool
    decreases p,
{
    if p <= 1 {
        p == 1
    } else {
        p % 2 == 0 && is_pow_two(p / 2)
    }
}

/// The spacing of double-precision numbers around the integer `m`: the
/// smallest power of two `p` with `m < 2^53 * p`.
pub open spec fn ulp53(m: nat) -> nat
    decreases m,
{
    if m < two53() {
        1
    } else {
        2 * ulp53(m / 2)
    }
}

/// The integer `m` rounded to the nearest double-precision number, ties
/// going to the even significand.
pub open spec fn round53(m: nat) -> nat {
    let p = ulp53(m);
    let q = m / p;
    let r = m % p;
    if 2 * r > p || (2 * r == p && q % 2 == 1) {
        (q + 1) * p
    } else {
        q * p
    }
}

/// The index that `next_index` draws from the generator output `u` for a
/// range of `len`: the top 53 bits of `u` as a fraction of one, times `len`
/// converted to a double, the product rounded to a double and truncated.
pub open spec fn index_from(u: u64, len: nat) -> nat {
    round53((u as nat / 2048) * round53(len)) / two53()
}

proof fn lemma_ulp53(m: nat)
    ensures
        ulp53(m) >= 1,
        is_pow_two(ulp53(m)),
        m < two53() * ulp53(m),
        ulp53(m) >= 2 ==> m >= (two53() / 2) * ulp53(m),
    decreases m,
{
    if m >= two53() {
        lemma_ulp53(m / 2);
        let u = ulp53(m / 2);
        assert((2 * u) / 2 == u && (2 * u) % 2 == 0);
        assert(m < two53() * (2 * u)) by (nonlinear_arith)
            requires
                m / 2 < two53() * u,
        ;
        if u >= 2 {
            assert(m >= (two53() / 2) * (2 * u)) by (nonlinear_arith)
                requires
                    m / 2 >= (two53() / 2) * u,
            ;
        }
    }
}

/// Powers of two divide the larger powers of two.
proof fn lemma_pow_two_divides(a: nat, b: nat)
    requires
        is_pow_two(a),
        is_pow_two(b),
        a <= b,
    ensures
        b % a == 0,
    decreases b,
{
    if a == 1 {
    } else {
        lemma_pow_two_divides(a / 2, b / 2);
        let k = (b / 2) / (a / 2);
        lemma_fundamental_div_mod((b / 2) as int, (a / 2) as int);
        assert(b == k * a) by (nonlinear_arith)
            requires
                b == 2 * (b / 2),
                a == 2 * (a / 2),
                b / 2 == (a / 2) * k,
        ;
        assert((k * a) % a == 0) by (nonlinear_arith)
            requires
                a >= 2,
        ;
    }
}

/// The product of two powers of two is a power of two.
proof fn lemma_pow_two_mul(a: nat, b: nat)
    requires
        is_pow_two(a),
        is_pow_two(b),
    ensures
        is_pow_two(a * b),
        a * b >= 1,
    decreases a,
{
    if a == 1 {
        assert(a * b == b) by (nonlinear_arith)
            requires
                a == 1,
        ;
    } else {
        lemma_pow_two_mul(a / 2, b);
        assert(a * b == 2 * ((a / 2) * b)) by (nonlinear_arith)
            requires
                a == 2 * (a / 2),
        ;
    }
}

/// `ulp53(m)` is no larger than any power of two `p` with `m < 2^53 * p`.
proof fn lemma_ulp53_minimal(m: nat, p: nat)
    requires
        is_pow_two(p),
        m < two53() * p,
    ensures
        ulp53(m) <= p,
    decreases m,
{
    if m >= two53() {
        assert(p >= 2) by (nonlinear_arith)
            requires
                m >= two53(),
                m < two53() * p,
        ;
        assert(m / 2 < two53() * (p / 2)) by (nonlinear_arith)
            requires
                m < two53() * p,
                p == 2 * (p / 2),
        ;
        lemma_ulp53_minimal(m / 2, p / 2);
    }
}

proof fn lemma_pow_two_double(p: nat)
    requires
        is_pow_two(p),
    ensures
        is_pow_two(2 * p),
{
    assert((2 * p) / 2 == p && (2 * p) % 2 == 0);
}

proof fn lemma_pow2_is_pow_two(e: nat)
    ensures
        is_pow_two(pow2(e)),
    decreases e,
{
    if e == 0 {
        lemma2_to64();
    } else {
        lemma_pow2_is_pow_two((e - 1) as nat);
        lemma_pow2_unfold(e);
        lemma_pow_two_double(pow2((e - 1) as nat));
    }
}

proof fn lemma_pow_two_constants()
    ensures
        is_pow_two(2048),
        is_pow_two(two53()),
{
    lemma2_to64();
    lemma2_to64_rest();
    lemma_pow2_is_pow_two(11);
    lemma_pow2_is_pow_two(53);
}

/// The smallest power of two that is at least `n`.
pub open spec fn ceil_pow_two(n: nat) -> nat
    decreases n,
{
    if n <= 1 {
        1
    } else {
        2 * ceil_pow_two(((n + 1) / 2) as nat)
    }
}

proof fn lemma_ceil_pow_two(n: nat)
    requires
        n >= 1,
    ensures
        is_pow_two(ceil_pow_two(n)),
        n <= ceil_pow_two(n),
        ceil_pow_two(n) < 2 * n,
    decreases n,
{
    if n > 1 {
        let h = ((n + 1) / 2) as nat;
        lemma_ceil_pow_two(h);
        let c = ceil_pow_two(h);
        assert((2 * c) / 2 == c && (2 * c) % 2 == 0);
        if n % 2 == 1 && c == h {
            // c would be an odd power of two greater than one
            assert(c % 2 == 0) by {
                reveal_with_fuel(is_pow_two, 2);
            }
        }
    }
}

/// `ceil_pow_two(n)` is no larger than any power of two that is at least `n`.
proof fn lemma_ceil_pow_two_minimal(n: nat, p: nat)
    requires
        n >= 1,
        is_pow_two(p),
        n <= p,
    ensures
        ceil_pow_two(n) <= p,
    decreases n,
{
    if n > 1 {
        assert(p >= 2);
        lemma_ceil_pow_two_minimal(((n + 1) / 2) as nat, p / 2);
    }
}

/// What rounding does: it lands on a multiple of the spacing next to `m`,
/// moving up by at most half the spacing, and leaves `m` alone when the
/// spacing is one.
proof fn lemma_round53(m: nat)
    ensures
        round53(m) % ulp53(m) == 0,
        (m / ulp53(m)) * ulp53(m) <= round53(m) <= (m / ulp53(m) + 1) * ulp53(m),
        m / ulp53(m) < two53(),
        round53(m) > m ==> 2 * (round53(m) - m) <= ulp53(m),
        round53(m) >= m ==> round53(m) - m < ulp53(m),
        round53(m) <= m * 2,
        ulp53(m) == 1 ==> round53(m) == m,
{
    lemma_ulp53(m);
    let p = ulp53(m);
    let q = m / p;
    let r = m % p;
    lemma_fundamental_div_mod(m as int, p as int);
    assert(((q + 1) * p) % p == 0 && (q * p) % p == 0) by (nonlinear_arith)
        requires
            p >= 1,
    ;
    assert(q < two53()) by (nonlinear_arith)
        requires
            m < two53() * p,
            m == p * q + r,
            r >= 0,
            p >= 1,
    ;
    assert((q + 1) * p == q * p + p && q * p + r == m) by (nonlinear_arith)
        requires
            m == p * q + r,
    ;
    if p >= 2 {
        assert((q + 1) * p <= 2 * m) by (nonlinear_arith)
            requires
                m >= (two53() / 2) * p,
                m == p * q + r,
                q < two53(),
                r >= 0,
                p >= 2,
        ;
    } else {
        assert(r == 0);
        assert(q * p == m);
    }
}

/// The product of an index fraction with a rounded length, rounded again,
/// stays below `2^53` times the rounded length.
#[verifier::rlimit(60)]
proof fn lemma_scaled_round_below(k: nat, len: nat)
    requires
        k < two53(),
        len >= 1,
    ensures
        round53(len) >= 1,
        round53(k * round53(len)) < two53() * round53(len),
{
    let big_l = round53(len);
    let pl = ulp53(len);
    lemma_round53(len);
    lemma_ulp53(len);
    lemma_fundamental_div_mod(len as int, pl as int);
    // big_l is a positive multiple of pl and at most 2^53 * pl
    assert(big_l >= 1) by (nonlinear_arith)
        requires
            big_l >= (len / pl) * pl,
            big_l % pl == 0,
            len >= 1,
            len == pl * (len / pl) + len % pl,
            pl >= 1,
            pl == 1 ==> big_l == len,
            pl >= 2 ==> len >= (two53() / 2) * pl,
    ;
    assert(big_l <= two53() * pl) by (nonlinear_arith)
        requires
            big_l <= (len / pl + 1) * pl,
            len / pl < two53(),
    ;
    let v = k * big_l;
    let pv = ulp53(v);
    lemma_ulp53(v);
    lemma_round53(v);
    let cp = ceil_pow_two(big_l);
    lemma_ceil_pow_two(big_l);
    // pv <= cp < 2 * big_l
    assert(v < two53() * cp) by (nonlinear_arith)
        requires
            v == k * big_l,
            k < two53(),
            big_l <= cp,
            big_l >= 1,
    ;
    lemma_ulp53_minimal(v, cp);
    // cp divides 2^53 * pl, which divides 2^53 * big_l
    lemma_pow_two_constants();
    lemma_pow_two_mul(two53(), pl);
    lemma_ceil_pow_two_minimal(big_l, two53() * pl);
    lemma_pow_two_divides(pv, two53() * pl);
    let mm = two53() * big_l;
    let j = big_l / pl;
    lemma_fundamental_div_mod(big_l as int, pl as int);
    let i = (two53() * pl) / pv;
    lemma_fundamental_div_mod((two53() * pl) as int, pv as int);
    assert(mm == (i * j) * pv) by (nonlinear_arith)
        requires
            mm == two53() * big_l,
            big_l == pl * j,
            two53() * pl == pv * i,
    ;
    // v < mm, mm a multiple of pv, so rounding v cannot pass mm
    assert(v < mm) by (nonlinear_arith)
        requires
            v == k * big_l,
            k < two53(),
            mm == two53() * big_l,
            big_l >= 1,
    ;
    let q = v / pv;
    lemma_fundamental_div_mod(v as int, pv as int);
    assert(q + 1 <= i * j) by (nonlinear_arith)
        requires
            v == pv * q + v % pv,
            v % pv >= 0,
            v < mm,
            mm == (i * j) * pv,
            pv >= 1,
    ;
    assert(round53(v) <= mm) by (nonlinear_arith)
        requires
            round53(v) <= (q + 1) * pv,
            q + 1 <= i * j,
            mm == (i * j) * pv,
            pv >= 1,
    ;
    assert(mm - v >= big_l) by (nonlinear_arith)
        requires
            v == k * big_l,
            k < two53(),
            mm == two53() * big_l,
    ;
}

/// An index drawn for a range of `len >= 1` is below `len` converted to a
/// double; below `2^53` that conversion is exact, so the index is below
/// `len` itself.
pub proof fn lemma_index_in_range(u: u64, len: nat)
    requires
        len >= 1,
    ensures
        index_from(u, len) < round53(len),
        len < two53() ==> round53(len) == len,
        len < two53() ==> index_from(u, len) < len,
{
    let k = u as nat / 2048;
    assert(k < two53());
    lemma_scaled_round_below(k, len);
    lemma_round53(len);
    let big_l = round53(len);
    let r = round53(k * big_l);
    assert(r / two53() < big_l) by (nonlinear_arith)
        requires
            r < two53() * big_l,
    ;
}

/// When `len` is rounded up to the double `L`, a product `k * L` with
/// `k < 2^53` rounds to at most `2^53` times the double below `L`.
#[verifier::rlimit(80)]
proof fn lemma_round_up_product(k: nat, len: nat)
    requires
        k < two53(),
        len >= 1,
        round53(len) > len,
    ensures
        round53(k * round53(len)) <= two53() * ((len / ulp53(len)) * ulp53(len)),
        (len / ulp53(len)) * ulp53(len) < len,
{
    let pl = ulp53(len);
    let big_l = round53(len);
    let q = len / pl;
    lemma_round53(len);
    lemma_ulp53(len);
    lemma_fundamental_div_mod(len as int, pl as int);
    // rounding up lands on the next multiple of pl
    assert(pl >= 2);
    assert(big_l == (q + 1) * pl) by (nonlinear_arith)
        requires
            big_l % pl == 0,
            q * pl <= big_l <= (q + 1) * pl,
            big_l > len,
            len == pl * q + len % pl,
            len % pl < pl,
            pl >= 1,
    ;
    if len % pl == 0 {
        assert(round53(len) == q * pl);
        assert(len == q * pl) by (nonlinear_arith)
            requires
                len == pl * q + len % pl,
                len % pl == 0,
        ;
    }
    assert(q * pl < len) by (nonlinear_arith)
        requires
            len == pl * q + len % pl,
            len % pl > 0,
    ;
    assert(q >= two53() / 2) by (nonlinear_arith)
        requires
            len >= (two53() / 2) * pl,
            len == pl * q + len % pl,
            len % pl < pl,
            pl >= 2,
    ;
    let big_p = two53() * pl;
    let t = q * big_p;
    let mm = two53() * big_l;
    let v = k * big_l;
    let pv = ulp53(v);
    lemma_ulp53(v);
    lemma_round53(v);
    lemma_pow_two_constants();
    lemma_pow_two_mul(two53(), pl);
    assert(big_l <= two53() * pl) by (nonlinear_arith)
        requires
            big_l == (q + 1) * pl,
            q + 1 <= two53(),
            pl >= 1,
    ;
    assert(v < two53() * big_l) by (nonlinear_arith)
        requires
            v == k * big_l,
            k < two53(),
            big_l >= 1,
    ;
    assert(two53() * big_l <= two53() * big_p) by (nonlinear_arith)
        requires
            big_l <= two53() * pl,
            big_p == two53() * pl,
    ;
    lemma_ulp53_minimal(v, big_p);
    lemma_pow_two_divides(pv, big_p);
    let i = big_p / pv;
    lemma_fundamental_div_mod(big_p as int, pv as int);
    assert(t == (q * i) * pv) by (nonlinear_arith)
        requires
            big_p == pv * i + big_p % pv,
            big_p % pv == 0,
            t == q * big_p,
    ;
    lemma_mod_multiples_basic((q * i) as int, pv as int);
    assert(mm == t + big_p) by (nonlinear_arith)
        requires
            mm == two53() * big_l,
            big_l == (q + 1) * pl,
            t == q * big_p,
            big_p == two53() * pl,
    ;
    if v <= t {
        if round53(v) > t {
            assert(round53(v) >= t + pv) by (nonlinear_arith)
                requires
                    round53(v) % pv == 0,
                    t % pv == 0,
                    round53(v) > t,
                    pv >= 1,
            ;
        }
    } else {
        // v lies in the top binade, where the spacing is big_p
        assert(v > (two53() / 2) * big_p) by (nonlinear_arith)
            requires
                v > t,
                t == q * big_p,
                q >= two53() / 2,
        ;
        assert(big_p < 2 * pv) by (nonlinear_arith)
            requires
                v > (two53() / 2) * big_p,
                v < two53() * pv,
        ;
        assert(pv == big_p) by (nonlinear_arith)
            requires
                big_p == pv * i,
                big_p < 2 * pv,
                pv <= big_p,
                pv >= 1,
        ;
        assert(v <= mm - big_l) by (nonlinear_arith)
            requires
                v == k * big_l,
                k < two53(),
                mm == two53() * big_l,
        ;
        assert(2 * big_l > big_p) by (nonlinear_arith)
            requires
                big_l == (q + 1) * pl,
                q >= two53() / 2,
                big_p == two53() * pl,
                pl >= 1,
        ;
        let r = (v - t) as nat;
        assert(v == q * big_p + r);
        lemma_fundamental_div_mod_converse(v as int, big_p as int, q as int, r as int);
        assert(2 * r < big_p);
        assert(round53(v) == q * big_p);
    }
    assert(round53(v) <= two53() * (q * pl)) by (nonlinear_arith)
        requires
            round53(v) <= t,
            t == q * big_p,
            big_p == two53() * pl,
    ;
}

/// An index drawn for a range of `len >= 1` is below `len`.
pub proof fn lemma_index_below_len(u: u64, len: nat)
    requires
        len >= 1,
    ensures
        index_from(u, len) < len,
{
    lemma_index_in_range(u, len);
    let k = u as nat / 2048;
    let big_l = round53(len);
    if big_l > len {
        lemma_round_up_product(k, len);
        let b = (len / ulp53(len)) * ulp53(len);
        let r = round53(k * big_l);
        assert(r / two53() <= b) by (nonlinear_arith)
            requires
                r <= two53() * b,
        ;
    }
}

/// Round a `u128` to the nearest double-precision value, ties to even.
fn round_to_double(m: u128) -> (r: u128)
    requires
        m < 0x40_0000_0000_0000_0000_0000_0000_0000,
    ensures
        r as nat == round53(m as nat),
{
    let mut p: u128 = 1;
    let mut q: u128 = m;
    while q >= 0x20_0000_0000_0000
        invariant
            p >= 1,
            q as nat == m as nat / (p as nat),
            ulp53(m as nat) == p * ulp53(q as nat),
            p * q <= m,
            p >= 2 ==> q >= 0x10_0000_0000_0000,
            m < 0x40_0000_0000_0000_0000_0000_0000_0000,
        decreases q,
    {
        proof {
            lemma_div_denominator(m as int, p as int, 2);
            lemma_fundamental_div_mod(q as int, 2);
            assert(p * 2 * (q / 2) <= p * q) by (nonlinear_arith)
                requires
                    q == 2 * (q / 2) + q % 2,
                    q % 2 >= 0,
                    p >= 1,
            ;
            assert(p * 2 <= p * q) by (nonlinear_arith)
                requires
                    q >= 2,
                    p >= 1,
            ;
            let u2 = ulp53(q as nat / 2);
            assert(ulp53(q as nat) == 2 * u2);
            assert(p * (2 * u2) == (p * 2) * u2) by (nonlinear_arith);
        }
        q = q / 2;
        p = p * 2;
    }
    proof {
        lemma_ulp53(m as nat);
        lemma_round53(m as nat);
        lemma_fundamental_div_mod(m as int, p as int);
        if p >= 2 {
            assert(p <= p * q) by (nonlinear_arith)
                requires
                    q >= 1,
                    p >= 1,
            ;
        }
        assert((q + 1) * p == p * q + p) by (nonlinear_arith);
        assert(ulp53(q as nat) == 1);
        let uq = ulp53(q as nat);
        assert(p * uq == p) by (nonlinear_arith)
            requires
                uq == 1,
        ;
        assert(ulp53(m as nat) == p);
        assert(q as nat == m as nat / ulp53(m as nat));
        assert(m - q * p == m % p) by (nonlinear_arith)
            requires
                m == p * (m / p) + m % p,
                q == m / p,
        ;
        assert(m - q * p < p);
        assert(m - q * p < p) by (nonlinear_arith)
            requires
                q == m / p,
                p >= 1,
        ;

    }
    let rem = m - q * p;
    if 2 * rem > p || (2 * rem == p && q % 2 == 1) {
        (q + 1) * p
    } else {
        q * p
    }
}

impl Rng {
    /// Get a random index in the range [0, len).
    ///
    /// The index is the top 53 bits of the next output taken as a fraction
    /// of one, multiplied by `len` in double precision and truncated.
    pub fn next_index(&mut self, len: usize) -> (r: usize)
        ensures
            final(self).state() == lcg_next(old(self).state()),
            r as nat == index_from(final(self).state(), len as nat),
            len > 0 ==> r < len,
    {
        let u = self.next_u64();
        let k: u128 = (u >> 11u64) as u128;
        assert(u >> 11u64 == u / 2048) by (bit_vector);
        proof {
            lemma_round53(len as nat);
            lemma_ulp53(len as nat);
        }
        let l = round_to_double(len as u128);
        proof {
            if len as nat >= two53() {
                lemma_pow_two_constants();
                lemma_ulp53_minimal(len as nat, 2048);
            }
            assert(l <= 0x1_0000_0000_0000_0000) by (nonlinear_arith)
                requires
                    l as nat <= (len as nat / ulp53(len as nat) + 1) * ulp53(len as nat),
                    len as nat / ulp53(len as nat) < two53(),
                    len as nat >= two53() ==> ulp53(len as nat) <= 2048,
                    len as nat <= 0xffff_ffff_ffff_ffff,
                    ulp53(len as nat) == 1 ==> l == len,
            ;
            assert(k * l < 0x40_0000_0000_0000_0000_0000_0000_0000) by (nonlinear_arith)
                requires
                    k < 0x20_0000_0000_0000,
                    l <= 0x1_0000_0000_0000_0000,
            ;
        }
        let v = k * l;
        let rv = round_to_double(v);
        let idx = rv / 0x20_0000_0000_0000;
        proof {
            if len == 0 {
                assert(ulp53(0) == 1);
                lemma_round53(0);
                assert(l == 0);
                assert(v == 0) by (nonlinear_arith)
                    requires
                        l == 0,
                        v == k * l,
                ;
            } else {
                lemma_index_in_range(u, len as nat);
                lemma_index_below_len(u, len as nat);
                if len as nat >= two53() {
                    assert(usize::MAX == 0xffff_ffff_ffff_ffff);
                }
            }
        }
        idx as usize
    }
}

impl Default for Rng {
    fn default() -> (r: Self)
        ensures
            r.state() == 1,
    {
        Rng::new(0)
    }
}

/// One step of the XorShift64 generator.
pub open spec fn xorshift_next(s: u64) -> u64 {
    let a = s ^ (s << 13u64);
    let b = a ^ (a >> 7u64);
    b ^ (b << 17u64)
}

/// Simple XorShift64 pseudo-random number generator for deterministic
/// tile patterns.
pub struct SimpleRng {
    state: u64,
}

impl SimpleRng {
    /// The generator's current state.
    pub closed spec fn state(&self) -> u64 {
        self.state
    }

    /// Create a generator whose state is the seed.
    pub fn new(seed: u64) -> (r: Self)
        ensures
            r.state() == seed,
    {
        SimpleRng { state: seed }
    }

    /// Advance the state and return it.
    pub fn next(&mut self) -> (r: u64)
        ensures
            final(self).state() == xorshift_next(old(self).state()),
            r == final(self).state(),
    {
        self.state = self.state ^ (self.state << 13);
        self.state = self.state ^ (self.state >> 7);
        self.state = self.state ^ (self.state << 17);
        self.state
    }

    /// Advance the state and report whether the new state is even.
    pub fn next_bool(&mut self) -> (r: bool)
        ensures
            final(self).state() == xorshift_next(old(self).state()),
            r == (final(self).state() % 2 == 0),
    {
        self.next() % 2 == 0
    }
}

} // verus!
