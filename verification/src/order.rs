//! The lexicographic order on character sequences, by which a table keeps
//! its contexts sorted.

use vstd::prelude::*;

verus! {

/// Where two character sequences stand relative to each other.
#[derive(Clone, Copy, Debug, PartialEq, Eq, Structural)]
pub enum Rank {
    Before,
    Same,
    After,
}

/// `a` and `b` agree on their first `p` characters, and at position `p`
/// either `a` ends while `b` goes on, or `a` holds the smaller character.
pub open spec fn parts_at(a: Seq<char>, b: Seq<char>, p: int) -> bool {
    &&& 0 <= p <= a.len()
    &&& p < b.len()
    &&& forall|j: int| 0 <= j < p ==> a[j] == b[j]
    &&& p < a.len() ==> a[p] < b[p]
}

/// `a` comes strictly before `b` in lexicographic order.
pub open spec fn precedes(a: Seq<char>, b: Seq<char>) -> bool {
    exists|p: int| parts_at(a, b, p)
}

/// No sequence comes before itself.
pub proof fn lemma_precedes_irreflexive(a: Seq<char>)
    ensures
        !precedes(a, a),
{
}

/// The order is transitive.
pub proof fn lemma_precedes_transitive(a: Seq<char>, b: Seq<char>, c: Seq<char>)
    requires
        precedes(a, b),
        precedes(b, c),
    ensures
        precedes(a, c),
{
    let p = choose|p: int| parts_at(a, b, p);
    let q = choose|q: int| parts_at(b, c, q);
    if p <= q {
        assert(parts_at(a, c, p));
    } else {
        assert(parts_at(a, c, q));
    }
}

/// Of two sequences in order, neither equals the other and the order does
/// not hold the other way round.
pub proof fn lemma_precedes_asymmetric(a: Seq<char>, b: Seq<char>)
    requires
        precedes(a, b),
    ensures
        a != b,
        !precedes(b, a),
{
    lemma_precedes_irreflexive(a);
    if precedes(b, a) {
        lemma_precedes_transitive(a, b, a);
    }
}

/// Sequences of one character are ordered as their characters are.
pub proof fn lemma_precedes_single(a: char, b: char)
    ensures
        precedes(seq![a], seq![b]) <==> a < b,
{
    if a < b {
        assert(parts_at(seq![a], seq![b], 0));
    }
}

/// Compares two character sequences lexicographically.
pub fn compare(a: &[char], b: &[char]) -> (r: Rank)
    ensures
        r == Rank::Before <==> precedes(a@, b@),
        r == Rank::Same <==> a@ == b@,
        r == Rank::After <==> precedes(b@, a@),
{
    let mut i: usize = 0;
    while i < a.len() && i < b.len()
        invariant
            i <= a.len(),
            i <= b.len(),
            forall|j: int| 0 <= j < i ==> a@[j] == b@[j],
        decreases a.len() - i,
    {
        if a[i] < b[i] {
            proof {
                assert(parts_at(a@, b@, i as int));
                lemma_precedes_asymmetric(a@, b@);
            }
            return Rank::Before;
        }
        if b[i] < a[i] {
            proof {
                assert(parts_at(b@, a@, i as int));
                lemma_precedes_asymmetric(b@, a@);
            }
            return Rank::After;
        }
        i += 1;
    }
    if a.len() < b.len() {
        proof {
            assert(parts_at(a@, b@, i as int));
            lemma_precedes_asymmetric(a@, b@);
        }
        Rank::Before
    } else if b.len() < a.len() {
        proof {
            assert(parts_at(b@, a@, i as int));
            lemma_precedes_asymmetric(b@, a@);
        }
        Rank::After
    } else {
        proof {
            assert(a@ =~= b@);
            lemma_precedes_irreflexive(a@);
        }
        Rank::Same
    }
}

} // verus!
