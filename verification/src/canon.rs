//! A table has one way only of keeping what it counts: two canonical
//! listings that stand for the same counts are the same listing.

use crate::bags::{lemma_copies, lemma_row_bag_count, lemma_row_bag_foreign};
use crate::model::{copies, entries_bag, row_bag, Entry, Step};
use crate::order::{lemma_precedes_asymmetric, precedes};
use crate::table::{
    canonical, chars_ascending, contexts_ascending, lemma_ascending_chars_distinct,
    lemma_listed_context, lemma_unlisted_context, row_canonical, TransitionTable,
};
use vstd::multiset::*;
use vstd::prelude::*;

verus! {

broadcast use group_multiset_axioms;

/// Two ascending rows without counts of zero that stand for the same steps
/// are the same row.
pub proof fn lemma_row_unique(context: Seq<char>, a: Seq<(char, u64)>, b: Seq<(char, u64)>)
    requires
        chars_ascending(a),
        chars_ascending(b),
        forall|j: int| 0 <= j < a.len() ==> (#[trigger] a[j]).1 >= 1,
        forall|j: int| 0 <= j < b.len() ==> (#[trigger] b[j]).1 >= 1,
        row_bag(context, a) == row_bag(context, b),
    ensures
        a == b,
    decreases a.len(),
{
    lemma_ascending_chars_distinct(a);
    lemma_ascending_chars_distinct(b);
    if a.len() == 0 {
        if b.len() > 0 {
            lemma_row_bag_count(context, b, 0);
            assert(b[0].1 >= 1);
            assert(row_bag(context, a).count((context, b[0].0)) == 0);
        }
        assert(a =~= b);
    } else {
        let x = a.last();
        lemma_row_bag_count(context, a, a.len() - 1);
        assert(x.1 >= 1);
        if forall|j: int| 0 <= j < b.len() ==> b[j].0 != x.0 {
            lemma_row_bag_foreign(context, b, context, x.0);
        }
        let at_b = choose|j: int| 0 <= j < b.len() && b[j].0 == x.0;
        let y = b.last();
        lemma_row_bag_count(context, b, b.len() - 1);
        assert(y.1 >= 1);
        if forall|j: int| 0 <= j < a.len() ==> a[j].0 != y.0 {
            lemma_row_bag_foreign(context, a, context, y.0);
        }
        let at_a = choose|j: int| 0 <= j < a.len() && a[j].0 == y.0;
        assert(at_a == a.len() - 1 && at_b == b.len() - 1);
        assert(x == y);
        let front_a = a.drop_last();
        let front_b = b.drop_last();
        assert(row_bag(context, front_a) =~= row_bag(context, front_b)) by {
            assert forall|q: Step| row_bag(context, front_a).count(q) == row_bag(
                context,
                front_b,
            ).count(q) by {
                assert(row_bag(context, a).count(q) == row_bag(context, front_a).count(q) + copies(
                    (context, x.0),
                    x.1 as nat,
                ).count(q));
                assert(row_bag(context, b).count(q) == row_bag(context, front_b).count(q) + copies(
                    (context, y.0),
                    y.1 as nat,
                ).count(q));
            }
        }
        assert forall|j: int| 0 <= j < front_a.len() implies (#[trigger] front_a[j]).1 >= 1 by {
            assert(front_a[j] == a[j]);
        }
        assert forall|j: int| 0 <= j < front_b.len() implies (#[trigger] front_b[j]).1 >= 1 by {
            assert(front_b[j] == b[j]);
        }
        lemma_row_unique(context, front_a, front_b);
        assert(a =~= front_a.push(x));
        assert(b =~= front_b.push(y));
    }
}

/// The last row of a canonical listing has a context that the other
/// listing of the same counts has as well.
proof fn lemma_context_in_both(a: Seq<Entry>, b: Seq<Entry>, i: int) -> (j: int)
    requires
        canonical(a),
        canonical(b),
        entries_bag(a) == entries_bag(b),
        0 <= i < a.len(),
    ensures
        0 <= j < b.len(),
        b[j].0 == a[i].0,
{
    lemma_listed_context(a, i);
    if forall|j: int| 0 <= j < b.len() ==> b[j].0 != a[i].0 {
        lemma_unlisted_context(b, a[i].0);
    }
    choose|j: int| 0 <= j < b.len() && b[j].0 == a[i].0
}

/// Two canonical listings that stand for the same counts are the same
/// listing.
pub proof fn lemma_canonical_unique(a: Seq<Entry>, b: Seq<Entry>)
    requires
        canonical(a),
        canonical(b),
        entries_bag(a) == entries_bag(b),
    ensures
        a == b,
    decreases a.len(),
{
    if a.len() == 0 {
        if b.len() > 0 {
            let j = lemma_context_in_both(b, a, 0);
        }
        assert(a =~= b);
    } else {
        let x = a.last();
        let at_b = lemma_context_in_both(a, b, a.len() - 1);
        let y = b.last();
        let at_a = lemma_context_in_both(b, a, b.len() - 1);
        if at_b < b.len() - 1 {
            assert(precedes(b[at_b].0, y.0));
            if at_a < a.len() - 1 {
                assert(precedes(a[at_a].0, x.0));
            }
            lemma_precedes_asymmetric(x.0, y.0);
        }
        if at_a < a.len() - 1 {
            assert(precedes(a[at_a].0, x.0));
            lemma_precedes_asymmetric(y.0, x.0);
        }
        assert(at_a == a.len() - 1 && at_b == b.len() - 1);
        let k = x.0;
        assert(y.0 == k);
        lemma_listed_context(a, a.len() - 1);
        lemma_listed_context(b, b.len() - 1);
        assert(row_canonical(x.1));
        assert(row_canonical(y.1));
        assert(row_bag(k, x.1) =~= row_bag(k, y.1)) by {
            assert forall|q: Step| row_bag(k, x.1).count(q) == row_bag(k, y.1).count(q) by {
                if q.0 == k {
                    let c = q.1;
                    let last_a = a[a.len() - 1];
                    let last_b = b[b.len() - 1];
                    assert(q == (k, c));
                    assert(entries_bag(a).count((last_a.0, c)) == row_bag(last_a.0, last_a.1).count(
                        (last_a.0, c),
                    ));
                    assert(entries_bag(b).count((last_b.0, c)) == row_bag(last_b.0, last_b.1).count(
                        (last_b.0, c),
                    ));
                } else {
                    lemma_row_bag_foreign(k, x.1, q.0, q.1);
                    lemma_row_bag_foreign(k, y.1, q.0, q.1);
                }
            }
        }
        lemma_row_unique(k, x.1, y.1);
        assert(x == y);
        let front_a = a.drop_last();
        let front_b = b.drop_last();
        assert(entries_bag(front_a) =~= entries_bag(front_b)) by {
            assert forall|q: Step| entries_bag(front_a).count(q) == entries_bag(front_b).count(
                q,
            ) by {
                assert(entries_bag(a).count(q) == entries_bag(front_a).count(q) + row_bag(
                    x.0,
                    x.1,
                ).count(q));
                assert(entries_bag(b).count(q) == entries_bag(front_b).count(q) + row_bag(
                    y.0,
                    y.1,
                ).count(q));
            }
        }
        assert(canonical(front_a)) by {
            assert forall|i: int| 0 <= i < front_a.len() implies row_canonical(
                (#[trigger] front_a[i]).1,
            ) by {
                assert(front_a[i] == a[i]);
            }
            assert(entries_bag(a).len() == entries_bag(front_a).len() + row_bag(x.0, x.1).len());
        }
        assert(canonical(front_b)) by {
            assert forall|i: int| 0 <= i < front_b.len() implies row_canonical(
                (#[trigger] front_b[i]).1,
            ) by {
                assert(front_b[i] == b[i]);
            }
            assert(entries_bag(b).len() == entries_bag(front_b).len() + row_bag(y.0, y.1).len());
        }
        lemma_canonical_unique(front_a, front_b);
        assert(a =~= front_a.push(x));
        assert(b =~= front_b.push(y));
    }
}

/// Round trip through written-out rows: what `to_entries` writes of a
/// table, `from_entries` accepts, and the table that it reads from it has
/// the same rows and the same counts.
pub proof fn lemma_entries_round_trip(table: TransitionTable, read: TransitionTable)
    requires
        canonical(table.entries()),
        canonical(read.entries()),
        read.bag() == entries_bag(table.entries()),
    ensures
        entries_bag(table.entries()).len() <= u64::MAX,
        read.entries() == table.entries(),
        read.bag() == table.bag(),
        read@ == table@,
{
    lemma_canonical_unique(read.entries(), table.entries());
}

} // verus!
