//! What a transition table is, mathematically: the steps that training
//! strings give rise to, the bag of counted steps that a table stands for,
//! and the map from context to next-character counts that callers read.

use vstd::multiset::Multiset;
use vstd::prelude::*;

verus! {

/// The largest number of characters in a context.
pub const SLICE_WINDOW_SIZE: usize = 3;

/// The reserved next-character that stands for the end of a string.
pub const TERMINATOR: char = '\0';

/// One observed transition: a context and the character that followed it.
pub type Step = (Seq<char>, char);

/// One row of a table written out: a context and its next characters with
/// their counts.
pub type Entry = (Seq<char>, Seq<(char, u64)>);

/// What callers read off a table: for each context, how often each next
/// character followed it.
pub type Transitions = Map<Seq<char>, Map<char, nat>>;

/// The context that ends at position `i` of `s`: the characters up to and
/// including `s[i]`, cut down to the last `SLICE_WINDOW_SIZE` of them.
pub open spec fn context_at(s: Seq<char>, i: int) -> Seq<char> {
    s.subrange(
        if i >= SLICE_WINDOW_SIZE {
            i - SLICE_WINDOW_SIZE + 1
        } else {
            0
        },
        i + 1,
    )
}

/// The character that follows position `i` of `s`, or the terminator where
/// `s` ends there.
pub open spec fn next_at(s: Seq<char>, i: int) -> char {
    if i + 1 < s.len() {
        s[i + 1]
    } else {
        TERMINATOR
    }
}

/// The steps that one training string contributes: one per position, or
/// none at all where the string is shorter than the window.
pub open spec fn line_steps(s: Seq<char>) -> Seq<Step> {
    if s.len() < SLICE_WINDOW_SIZE {
        Seq::empty()
    } else {
        Seq::new(s.len(), |i: int| (context_at(s, i), next_at(s, i)))
    }
}

/// The steps of all training strings, in the order in which they are read.
pub open spec fn training_steps(lines: Seq<Seq<char>>) -> Seq<Step>
    decreases lines.len(),
{
    if lines.len() == 0 {
        Seq::empty()
    } else {
        training_steps(lines.drop_last()) + line_steps(lines.last())
    }
}

/// Training on one more string adds that string's steps at the end.
pub proof fn lemma_training_steps_push(lines: Seq<Seq<char>>, s: Seq<char>)
    ensures
        training_steps(lines.push(s)) == training_steps(lines) + line_steps(s),
{
    assert(lines.push(s).drop_last() =~= lines);
}

/// The first `j` strings give no more steps than all of them.
pub proof fn lemma_training_steps_prefix(lines: Seq<Seq<char>>, j: int)
    requires
        0 <= j <= lines.len(),
    ensures
        training_steps(lines.take(j)).len() <= training_steps(lines).len(),
    decreases lines.len() - j,
{
    if j < lines.len() {
        lemma_training_steps_prefix(lines, j + 1);
        assert(lines.take(j + 1) =~= lines.take(j).push(lines[j]));
        lemma_training_steps_push(lines.take(j), lines[j]);
    } else {
        assert(lines.take(j) =~= lines);
    }
}

/// The map that holds every step of `bag` with the number of times it
/// occurs there, and nothing else.
pub open spec fn table_of(bag: Multiset<Step>) -> Transitions {
    Map::new(
        |k: Seq<char>| exists|c: char| bag.count((k, c)) > 0,
        |k: Seq<char>| Map::new(|c: char| bag.count((k, c)) > 0, |c: char| bag.count((k, c))),
    )
}

/// The table that training on `lines` yields.
pub open spec fn transitions(lines: Seq<Seq<char>>) -> Transitions {
    table_of(training_steps(lines).to_multiset())
}

/// The bag that holds `step` exactly `n` times.
pub open spec fn copies(step: Step, n: nat) -> Multiset<Step>
    decreases n,
{
    if n == 0 {
        Multiset::empty()
    } else {
        copies(step, (n - 1) as nat).insert(step)
    }
}

/// The steps that one row stands for: each next character of `nexts`
/// after `context`, as often as its count says.
pub open spec fn row_bag(context: Seq<char>, nexts: Seq<(char, u64)>) -> Multiset<Step>
    decreases nexts.len(),
{
    if nexts.len() == 0 {
        Multiset::empty()
    } else {
        row_bag(context, nexts.drop_last()).add(
            copies((context, nexts.last().0), nexts.last().1 as nat),
        )
    }
}

/// The steps that a written-out table stands for.
pub open spec fn entries_bag(entries: Seq<Entry>) -> Multiset<Step>
    decreases entries.len(),
{
    if entries.len() == 0 {
        Multiset::empty()
    } else {
        entries_bag(entries.drop_last()).add(row_bag(entries.last().0, entries.last().1))
    }
}

/// The sum of the counts of a row.
pub open spec fn row_total(nexts: Seq<(char, u64)>) -> nat
    decreases nexts.len(),
{
    if nexts.len() == 0 {
        0
    } else {
        row_total(nexts.drop_last()) + nexts.last().1 as nat
    }
}

} // verus!
