use vstd::prelude::*;

verus! {

/// Whether `a` can be found in the first `n + 1` of a sequence: in the
/// first `n`, or at place `n`.
pub proof fn lemma_prefix_contains<A>(s: Seq<A>, n: int, a: A)
    requires
        0 <= n < s.len(),
    ensures
        s.subrange(0, n + 1).contains(a) <==> s.subrange(0, n).contains(a) || s[n] == a,
{
    let short = s.subrange(0, n);
    let long = s.subrange(0, n + 1);
    if long.contains(a) {
        let i = choose|i: int| 0 <= i < long.len() && long[i] == a;
        if i < n {
            assert(short[i] == a);
        }
    }
    if short.contains(a) {
        let i = choose|i: int| 0 <= i < short.len() && short[i] == a;
        assert(long[i] == a);
    }
    if s[n] == a {
        assert(long[n] == a);
    }
}

/// A sequence with one more value holds what it held and that value.
pub proof fn lemma_push_contains<A>(s: Seq<A>, a: A, b: A)
    ensures
        s.push(a).contains(b) <==> s.contains(b) || a == b,
{
    let long = s.push(a);
    if long.contains(b) {
        let i = choose|i: int| 0 <= i < long.len() && long[i] == b;
        if i < s.len() {
            assert(s[i] == b);
        }
    }
    if s.contains(b) {
        let i = choose|i: int| 0 <= i < s.len() && s[i] == b;
        assert(long[i] == b);
    }
    if a == b {
        assert(long[s.len() as int] == b);
    }
}

/// A sequence without repeats stays without them when a value that it
/// does not hold is added.
pub proof fn lemma_push_fresh<A>(s: Seq<A>, a: A)
    requires
        s.no_duplicates(),
        !s.contains(a),
    ensures
        s.push(a).no_duplicates(),
{
    let long = s.push(a);
    assert forall|i: int, j: int| 0 <= i < long.len() && 0 <= j < long.len() && i != j implies long[i]
        != long[j] by {
        if i < s.len() && j < s.len() {
            assert(s[i] != s[j]);
        } else if i < s.len() {
            assert(s.contains(s[i]));
        } else {
            assert(s.contains(s[j]));
        }
    }
}

} // verus!
