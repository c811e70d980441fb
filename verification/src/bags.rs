//! Facts about the bag of steps that a written-out table stands for.

use crate::model::{copies, entries_bag, row_bag, row_total, Entry, Step};
use vstd::multiset::*;
use vstd::prelude::*;

verus! {

broadcast use group_multiset_axioms;

/// No two entries of the row speak of the same next character.
pub open spec fn chars_distinct(nexts: Seq<(char, u64)>) -> bool {
    forall|i: int, j: int| 0 <= i < j < nexts.len() ==> nexts[i].0 != nexts[j].0
}

/// No two rows speak of the same context.
pub open spec fn contexts_distinct(entries: Seq<Entry>) -> bool {
    forall|i: int, j: int| 0 <= i < j < entries.len() ==> entries[i].0 != entries[j].0
}

/// A sequence without items has the empty bag.
pub proof fn lemma_no_steps(steps: Seq<Step>)
    requires
        steps.len() == 0,
    ensures
        steps.to_multiset() == Multiset::<Step>::empty(),
{
    vstd::seq_lib::to_multiset_len(steps);
    lemma_multiset_empty_len(steps.to_multiset());
}

/// `copies(step, n)` holds `n` items, all of them `step`.
pub proof fn lemma_copies(step: Step, n: nat)
    ensures
        copies(step, n).len() == n,
        copies(step, n).count(step) == n,
        forall|q: Step| q != step ==> copies(step, n).count(q) == 0,
    decreases n,
{
    if n > 0 {
        lemma_copies(step, (n - 1) as nat);
    }
}

/// No count of a row is larger than the row's total.
pub proof fn lemma_row_total_bounds(nexts: Seq<(char, u64)>, j: int)
    requires
        0 <= j < nexts.len(),
    ensures
        nexts[j].1 <= row_total(nexts),
    decreases nexts.len(),
{
    if j < nexts.len() - 1 {
        lemma_row_total_bounds(nexts.drop_last(), j);
    }
}

/// A row stands for as many steps as its counts add up to.
pub proof fn lemma_row_bag_len(context: Seq<char>, nexts: Seq<(char, u64)>)
    ensures
        row_bag(context, nexts).len() == row_total(nexts),
    decreases nexts.len(),
{
    if nexts.len() > 0 {
        lemma_row_bag_len(context, nexts.drop_last());
        lemma_copies((context, nexts.last().0), nexts.last().1 as nat);
    }
}

/// The bag of a row written in two parts is the sum of the parts' bags.
pub proof fn lemma_row_bag_concat(context: Seq<char>, a: Seq<(char, u64)>, b: Seq<(char, u64)>)
    ensures
        row_bag(context, a + b) == row_bag(context, a).add(row_bag(context, b)),
    decreases b.len(),
{
    if b.len() == 0 {
        assert(a + b =~= a);
        assert(row_bag(context, a).add(row_bag(context, b)) =~= row_bag(context, a));
    } else {
        assert((a + b).drop_last() =~= a + b.drop_last());
        lemma_row_bag_concat(context, a, b.drop_last());
        assert(row_bag(context, a + b) =~= row_bag(context, a).add(row_bag(context, b)));
    }
}

/// A row holds no step of another context, and none to a character that it
/// does not list.
pub proof fn lemma_row_bag_foreign(context: Seq<char>, nexts: Seq<(char, u64)>, k: Seq<char>, c: char)
    requires
        k != context || forall|j: int| 0 <= j < nexts.len() ==> nexts[j].0 != c,
    ensures
        row_bag(context, nexts).count((k, c)) == 0,
    decreases nexts.len(),
{
    if nexts.len() > 0 {
        lemma_row_bag_foreign(context, nexts.drop_last(), k, c);
        lemma_copies((context, nexts.last().0), nexts.last().1 as nat);
    }
}

/// Where no character is listed twice, a row holds each listed step as
/// often as its count says.
pub proof fn lemma_row_bag_count(context: Seq<char>, nexts: Seq<(char, u64)>, j: int)
    requires
        chars_distinct(nexts),
        0 <= j < nexts.len(),
    ensures
        row_bag(context, nexts).count((context, nexts[j].0)) == nexts[j].1,
    decreases nexts.len(),
{
    let front = nexts.drop_last();
    lemma_copies((context, nexts.last().0), nexts.last().1 as nat);
    if j == nexts.len() - 1 {
        lemma_row_bag_foreign(context, front, context, nexts[j].0);
    } else {
        lemma_row_bag_count(context, front, j);
    }
}

/// The bag of a table written in two parts is the sum of the parts' bags.
pub proof fn lemma_entries_bag_concat(a: Seq<Entry>, b: Seq<Entry>)
    ensures
        entries_bag(a + b) == entries_bag(a).add(entries_bag(b)),
    decreases b.len(),
{
    if b.len() == 0 {
        assert(a + b =~= a);
        assert(entries_bag(a).add(entries_bag(b)) =~= entries_bag(a));
    } else {
        assert((a + b).drop_last() =~= a + b.drop_last());
        lemma_entries_bag_concat(a, b.drop_last());
        assert(entries_bag(a + b) =~= entries_bag(a).add(entries_bag(b)));
    }
}

/// The bag of a table of one row is that row's bag.
pub proof fn lemma_entries_bag_single(entry: Entry)
    ensures
        entries_bag(seq![entry]) == row_bag(entry.0, entry.1),
{
    let one = seq![entry];
    assert(one.drop_last() =~= Seq::<Entry>::empty());
    assert(one.last() == entry);
    assert(entries_bag(one.drop_last()) == Multiset::<Step>::empty());
    assert(entries_bag(one) =~= row_bag(entry.0, entry.1));
}

/// A table holds no step that none of its rows lists.
pub proof fn lemma_entries_bag_foreign(entries: Seq<Entry>, k: Seq<char>, c: char)
    requires
        forall|i: int, j: int|
            0 <= i < entries.len() && 0 <= j < entries[i].1.len() && entries[i].0 == k
                ==> entries[i].1[j].0 != c,
    ensures
        entries_bag(entries).count((k, c)) == 0,
    decreases entries.len(),
{
    if entries.len() > 0 {
        lemma_entries_bag_foreign(entries.drop_last(), k, c);
        let last = entries.last();
        assert(last == entries[entries.len() - 1]);
        lemma_row_bag_foreign(last.0, last.1, k, c);
    }
}

/// Where no context and no character of a row is listed twice, a table
/// holds each listed step as often as its count says.
pub proof fn lemma_entries_bag_count(entries: Seq<Entry>, i: int, j: int)
    requires
        contexts_distinct(entries),
        0 <= i < entries.len(),
        chars_distinct(entries[i].1),
        0 <= j < entries[i].1.len(),
    ensures
        entries_bag(entries).count((entries[i].0, entries[i].1[j].0)) == entries[i].1[j].1,
    decreases entries.len(),
{
    let front = entries.drop_last();
    let last = entries.last();
    let k = entries[i].0;
    let c = entries[i].1[j].0;
    if i == entries.len() - 1 {
        lemma_entries_bag_foreign(front, k, c);
        lemma_row_bag_count(last.0, last.1, j);
    } else {
        lemma_entries_bag_count(front, i, j);
        lemma_row_bag_foreign(last.0, last.1, k, c);
    }
}

/// `n + m` copies are `n` copies and `m` copies.
pub proof fn lemma_copies_add(step: Step, n: nat, m: nat)
    ensures
        copies(step, n + m) == copies(step, n).add(copies(step, m)),
{
    lemma_copies(step, n + m);
    lemma_copies(step, n);
    lemma_copies(step, m);
    assert(copies(step, n + m) =~= copies(step, n).add(copies(step, m)));
}

/// The bag of a row of one entry holds that entry's step, count times.
pub proof fn lemma_row_bag_single(context: Seq<char>, c: char, n: u64)
    ensures
        row_bag(context, seq![(c, n)]) == copies((context, c), n as nat),
{
    let one = seq![(c, n)];
    assert(one.drop_last() =~= Seq::<(char, u64)>::empty());
    assert(one.last() == (c, n));
    assert(row_bag(context, one.drop_last()) == Multiset::<Step>::empty());
    assert(row_bag(context, one) =~= copies((context, c), n as nat));
}

/// The bag of a row written as a front part, one entry and a back part.
pub proof fn lemma_row_bag_around(
    context: Seq<char>,
    front: Seq<(char, u64)>,
    c: char,
    n: u64,
    back: Seq<(char, u64)>,
)
    ensures
        row_bag(context, front + seq![(c, n)] + back) == row_bag(context, front).add(
            copies((context, c), n as nat),
        ).add(row_bag(context, back)),
{
    lemma_row_bag_concat(context, front + seq![(c, n)], back);
    lemma_row_bag_concat(context, front, seq![(c, n)]);
    lemma_row_bag_single(context, c, n);
}

/// The bag of a table written as a front part, one row and a back part.
pub proof fn lemma_entries_bag_around(front: Seq<Entry>, entry: Entry, back: Seq<Entry>)
    ensures
        entries_bag(front + seq![entry] + back) == entries_bag(front).add(
            row_bag(entry.0, entry.1),
        ).add(entries_bag(back)),
{
    lemma_entries_bag_concat(front + seq![entry], back);
    lemma_entries_bag_concat(front, seq![entry]);
    lemma_entries_bag_single(entry);
}

/// A row's bag is part of the bag of the table that it stands in.
pub proof fn lemma_entries_bag_split(entries: Seq<Entry>, i: int)
    requires
        0 <= i < entries.len(),
    ensures
        entries_bag(entries) == entries_bag(entries.take(i)).add(
            row_bag(entries[i].0, entries[i].1),
        ).add(entries_bag(entries.skip(i + 1))),
{
    assert(entries =~= entries.take(i) + seq![entries[i]] + entries.skip(i + 1));
    lemma_entries_bag_concat(entries.take(i) + seq![entries[i]], entries.skip(i + 1));
    lemma_entries_bag_concat(entries.take(i), seq![entries[i]]);
    lemma_entries_bag_single(entries[i]);
}

} // verus!
