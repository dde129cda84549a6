//! L-system for the Sierpiński arrowhead curve.
//!
//! Axiom `A`; rules `A -> B-A-B` and `B -> A+B+A`, where `+` turns left and
//! `-` turns right by 60 degrees.
use vstd::prelude::*;
use vstd::string::*;

verus! {

/// The rewriting of one symbol.
pub open spec fn expand_char(c: char) -> Seq<char> {
    if c == 'A' {
        seq!['B', '-', 'A', '-', 'B']
    } else if c == 'B' {
        seq!['A', '+', 'B', '+', 'A']
    } else {
        seq![c]
    }
}

/// One rewriting step applied to every symbol of `s`.
pub open spec fn expand(s: Seq<char>) -> Seq<char>
    decreases s.len(),
{
    if s.len() == 0 {
        Seq::empty()
    } else {
        expand(s.drop_last()) + expand_char(s.last())
    }
}

/// The L-system string after `depth` rewriting steps.
pub open spec fn lsystem(depth: nat) -> Seq<char>
    decreases depth,
{
    if depth == 0 {
        seq!['A']
    } else {
        expand(lsystem((depth - 1) as nat))
    }
}

/// Only the symbols `A`, `B`, `+` and `-` occur.
pub open spec fn in_alphabet(s: Seq<char>) -> bool {
    forall|i: int| 0 <= i < s.len() ==> (s[i] == 'A' || s[i] == 'B' || s[i] == '+' || s[i] == '-')
}

proof fn lemma_expand_alphabet(s: Seq<char>)
    requires
        in_alphabet(s),
    ensures
        in_alphabet(expand(s)),
    decreases s.len(),
{
    if s.len() > 0 {
        assert(in_alphabet(s.drop_last()));
        lemma_expand_alphabet(s.drop_last());
        let e = expand(s.drop_last());
        let t = expand_char(s.last());
        assert(in_alphabet(t));
        assert forall|i: int| 0 <= i < (e + t).len() implies ((e + t)[i] == 'A' || (e + t)[i] == 'B' || (e + t)[i] == '+' || (e + t)[i] == '-') by {
            if i < e.len() {
                assert((e + t)[i] == e[i]);
            } else {
                assert((e + t)[i] == t[i - e.len()]);
            }
        }
    }
}

/// Every L-system string is written in the alphabet `A`, `B`, `+`, `-`.
pub proof fn lemma_lsystem_alphabet(depth: nat)
    ensures
        in_alphabet(lsystem(depth)),
    decreases depth,
{
    if depth > 0 {
        lemma_lsystem_alphabet((depth - 1) as nat);
        lemma_expand_alphabet(lsystem((depth - 1) as nat));
    }
}

/// The number of drawing symbols (`A` or `B`) in `s`.
pub open spec fn letters(s: Seq<char>) -> nat
    decreases s.len(),
{
    if s.len() == 0 {
        0
    } else {
        letters(s.drop_last()) + if s.last() == 'A' || s.last() == 'B' { 1nat } else { 0nat }
    }
}

/// `3^n`.
pub open spec fn pow3(n: nat) -> nat
    decreases n,
{
    if n == 0 {
        1
    } else {
        3 * pow3((n - 1) as nat)
    }
}

proof fn lemma_expand_counts(s: Seq<char>)
    ensures
        letters(expand(s)) == 3 * letters(s),
        expand(s).len() == s.len() + 4 * letters(s),
    decreases s.len(),
{
    if s.len() > 0 {
        let a = s.drop_last();
        let c = s.last();
        lemma_expand_counts(a);
        lemma_letters_append(expand(a), expand_char(c));
        let t = expand_char(c);
        if c == 'A' || c == 'B' {
            assert(letters(t) == 3) by {
                reveal_with_fuel(letters, 6);
            }
        } else {
            lemma_letters_push(Seq::empty(), c);
            assert(Seq::<char>::empty().push(c) =~= t);
        }
        assert(expand(s) == expand(a) + t);
    }
}

proof fn lemma_letters_push(a: Seq<char>, c: char)
    ensures
        letters(a.push(c)) == letters(a) + if c == 'A' || c == 'B' { 1nat } else { 0nat },
{
    assert(a.push(c).drop_last() =~= a);
    assert(a.push(c).last() == c);
}

proof fn lemma_letters_append(a: Seq<char>, b: Seq<char>)
    ensures
        letters(a + b) == letters(a) + letters(b),
    decreases b.len(),
{
    if b.len() == 0 {
        assert(a + b =~= a);
    } else {
        lemma_letters_append(a, b.drop_last());
        assert((a + b).drop_last() =~= a + b.drop_last());
    }
}

/// After `depth` steps the string holds `3^depth` drawing symbols and has
/// length `2 * 3^depth - 1`: each step turns every drawing symbol into
/// three, joined by two turns.
pub proof fn lemma_lsystem_size(depth: nat)
    ensures
        letters(lsystem(depth)) == pow3(depth),
        lsystem(depth).len() + 1 == 2 * pow3(depth),
    decreases depth,
{
    if depth == 0 {
        lemma_letters_push(Seq::empty(), 'A');
        assert(Seq::<char>::empty().push('A') =~= seq!['A']);
    } else {
        let p = (depth - 1) as nat;
        lemma_lsystem_size(p);
        lemma_expand_counts(lsystem(p));
        assert(lsystem(depth) == expand(lsystem(p)));
        assert(pow3(depth) == 3 * pow3(p));
    }
}

/// Generate the L-system string for the Sierpiński curve at `depth`.
pub fn generate_lsystem(depth: usize) -> (res: String)
    ensures
        res@ == lsystem(depth as nat),
{
    let mut current = String::from_str("A");
    proof {
        reveal_strlit("A");
    }
    for k in 0..depth
        invariant
            current@ == lsystem(k as nat),
    {
        proof {
            lemma_lsystem_alphabet(k as nat);
        }
        let mut next = String::new();
        let ghost cur = current@;
        for c in it: current.as_str().chars()
            invariant
                cur == current@,
                in_alphabet(cur),
                it.seq() == cur,
                next@ == expand(cur.take(it.index() as int)),
        {
            let ghost i = it.index();
            proof {
                reveal_strlit("B-A-B");
                reveal_strlit("A+B+A");
                reveal_strlit("+");
                reveal_strlit("-");
                assert(cur.take(i + 1).drop_last() =~= cur.take(i as int));
                assert(cur.take(i + 1).last() == c);
            }
            if c == 'A' {
                next.append("B-A-B");
            } else if c == 'B' {
                next.append("A+B+A");
            } else if c == '+' {
                next.append("+");
            } else {
                next.append("-");
            }
            proof {
                let t = cur.take(i + 1);
                assert(expand(t) == expand(t.drop_last()) + expand_char(t.last()));
                assert(next@ =~= expand(t));
            }
        }
        assert(cur.take(cur.len() as int) =~= cur);
        current = next;
    }
    current
}

/// Left turns minus right turns among the symbols of `s`.
pub open spec fn net_turns(s: Seq<char>) -> int
    decreases s.len(),
{
    if s.len() == 0 {
        0
    } else {
        net_turns(s.drop_last()) + if s.last() == '+' {
            1int
        } else if s.last() == '-' {
            -1int
        } else {
            0int
        }
    }
}

/// For each drawing symbol of `s`, in order, the turtle's heading when it
/// draws that step: the net number of 60-degree left turns made before it.
pub open spec fn headings(s: Seq<char>) -> Seq<int>
    decreases s.len(),
{
    if s.len() == 0 {
        Seq::empty()
    } else if s.last() == 'A' || s.last() == 'B' {
        headings(s.drop_last()).push(net_turns(s.drop_last()))
    } else {
        headings(s.drop_last())
    }
}

proof fn lemma_headings_len(s: Seq<char>)
    ensures
        headings(s).len() == letters(s),
    decreases s.len(),
{
    if s.len() > 0 {
        lemma_headings_len(s.drop_last());
    }
}

/// The headings of the turtle that reads `commands`: one per drawing
/// symbol (`A` or `B`), each the number of left turns (`+`) minus right
/// turns (`-`) read before it. Other symbols are ignored.
pub fn turtle_headings(commands: &str) -> (turns: Vec<i64>)
    requires
        commands@.len() <= i64::MAX,
    ensures
        turns@.len() == headings(commands@).len(),
        forall|k: int| 0 <= k < turns@.len() ==> turns@[k] as int == headings(commands@)[k],
        turns@.len() == letters(commands@),
{
    let mut turns: Vec<i64> = Vec::new();
    let mut net: i64 = 0;
    let ghost cur = commands@;
    for c in it: commands.chars()
        invariant
            it.seq() == cur,
            cur == commands@,
            cur.len() <= i64::MAX,
            net == net_turns(cur.take(it.index() as int)),
            -(it.index() as int) <= net <= it.index(),
            turns@.len() == headings(cur.take(it.index() as int)).len(),
            forall|k: int| 0 <= k < turns@.len() ==> turns@[k] as int == headings(cur.take(it.index() as int))[k],
    {
        let ghost i = it.index();
        proof {
            assert(cur.take(i + 1).drop_last() =~= cur.take(i as int));
            assert(cur.take(i + 1).last() == c);
        }
        if c == 'A' || c == 'B' {
            turns.push(net);
        } else if c == '+' {
            net = net + 1;
        } else if c == '-' {
            net = net - 1;
        }
    }
    proof {
        assert(cur.take(cur.len() as int) =~= cur);
        lemma_headings_len(cur);
    }
    turns
}

/// `s` with left and right turns exchanged.
pub open spec fn mirror(s: Seq<char>) -> Seq<char> {
    s.map_values(|c: char| if c == '+' { '-' } else if c == '-' { '+' } else { c })
}

/// Reading the mirrored commands turns the other way at every step: each
/// heading is negated, and the turtle draws the same number of steps.
pub proof fn lemma_headings_mirror(s: Seq<char>)
    ensures
        headings(mirror(s)).len() == headings(s).len(),
        forall|k: int| 0 <= k < headings(s).len() ==> #[trigger] headings(mirror(s))[k] == -headings(s)[k],
        net_turns(mirror(s)) == -net_turns(s),
    decreases s.len(),
{
    if s.len() > 0 {
        let d = s.drop_last();
        lemma_headings_mirror(d);
        assert(mirror(s).drop_last() =~= mirror(d));
        assert(mirror(s).last() == (if s.last() == '+' { '-' } else if s.last() == '-' { '+' } else { s.last() }));
    }
}

/// Reading two command strings one after the other: the headings of the
/// second continue from the net turn of the first.
pub proof fn lemma_headings_append(s1: Seq<char>, s2: Seq<char>)
    ensures
        net_turns(s1 + s2) == net_turns(s1) + net_turns(s2),
        headings(s1 + s2).len() == headings(s1).len() + headings(s2).len(),
        forall|k: int| 0 <= k < headings(s1).len() ==> #[trigger] headings(s1 + s2)[k] == headings(s1)[k],
        forall|k: int| 0 <= k < headings(s2).len() ==>
            #[trigger] headings(s1 + s2)[headings(s1).len() + k] == net_turns(s1) + headings(s2)[k],
    decreases s2.len(),
{
    if s2.len() == 0 {
        assert(s1 + s2 =~= s1);
    } else {
        let d = s2.drop_last();
        lemma_headings_append(s1, d);
        assert((s1 + s2).drop_last() =~= s1 + d);
        assert((s1 + s2).last() == s2.last());
    }
}

} // verus!
