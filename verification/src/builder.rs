//! Training: one pass over the training strings that counts every step.

use crate::bags::lemma_no_steps;
use crate::model::{
    copies, lemma_training_steps_prefix, lemma_training_steps_push, line_steps, training_steps,
    transitions, Step, SLICE_WINDOW_SIZE, TERMINATOR,
};
use crate::table::TransitionTable;
use crate::text::chars_of;
use vstd::multiset::*;
use vstd::prelude::*;
use vstd::seq_lib::{lemma_multiset_commutative, to_multiset_build, to_multiset_len};
use vstd::slice::slice_subrange;

verus! {

broadcast use group_multiset_axioms;

/// Counts the steps of one training string into `table`: one per
/// character, or none where the string is shorter than the window. The
/// counts of the table and the new steps together have to fit in `u64`.
pub fn train(table: &mut TransitionTable, text: &[char])
    requires
        old(table).bag().len() + line_steps(text@).len() <= u64::MAX,
    ensures
        final(table).bag() == old(table).bag().add(line_steps(text@).to_multiset()),
{
    let n = text.len();
    let ghost steps = line_steps(text@);
    let ghost start_bag = table.bag();
    if n < SLICE_WINDOW_SIZE {
        proof {
            lemma_no_steps(steps);
        }
        assert(start_bag.add(steps.to_multiset()) =~= start_bag);
        return ;
    }
    let mut i: usize = 0;
    proof {
        lemma_no_steps(steps.take(0));
    }
    assert(start_bag.add(steps.take(0).to_multiset()) =~= start_bag);
    while i < n
        invariant
            i <= n,
            n == text@.len(),
            n >= SLICE_WINDOW_SIZE,
            steps == line_steps(text@),
            steps.len() == n,
            start_bag.len() + n <= u64::MAX,
            table.bag() == start_bag.add(steps.take(i as int).to_multiset()),
        decreases n - i,
    {
        let start = if i >= SLICE_WINDOW_SIZE {
            i - SLICE_WINDOW_SIZE + 1
        } else {
            0
        };
        let context = slice_subrange(text, start, i + 1);
        let next = if i + 1 < n {
            text[i + 1]
        } else {
            TERMINATOR
        };
        proof {
            to_multiset_len(steps.take(i as int));
        }
        table.record(context, next, 1);
        proof {
            let step = (context@, next);
            assert(step == steps[i as int]);
            assert(steps.take(i + 1) =~= steps.take(i as int).push(step));
            to_multiset_build(steps.take(i as int), step);
            assert(copies(step, 1) =~= Multiset::<Step>::empty().insert(step)) by {
                assert(copies(step, 0) == Multiset::<Step>::empty());
            }
            assert(table.bag() =~= start_bag.add(steps.take(i + 1).to_multiset()));
        }
        i += 1;
    }
    assert(steps.take(n as int) =~= steps);
}

/// Builds the transition table of the training strings `lines`.
///
/// Every position of every string that is at least as long as the window
/// is counted once, under the context that ends there and the character
/// that follows, the terminator after the last one. Shorter strings count
/// for nothing. Counts are kept in `u64`: the strings may not give more
/// steps than one holds.
pub fn compute_transitions_map(lines: &Vec<String>) -> (table: TransitionTable)
    requires
        training_steps(lines.deep_view()).len() <= u64::MAX,
    ensures
        table.bag() == training_steps(lines.deep_view()).to_multiset(),
        table@ == transitions(lines.deep_view()),
{
    let ghost all = lines.deep_view();
    let mut table = TransitionTable::new();
    let mut j: usize = 0;
    proof {
        lemma_no_steps(training_steps(all.take(0)));
    }
    while j < lines.len()
        invariant
            j <= lines.len(),
            all == lines.deep_view(),
            training_steps(all).len() <= u64::MAX,
            table.bag() == training_steps(all.take(j as int)).to_multiset(),
        decreases lines.len() - j,
    {
        let text = chars_of(lines[j].as_str());
        proof {
            assert(text@ == all[j as int]);
            assert(all.take(j + 1) =~= all.take(j as int).push(text@));
            lemma_training_steps_push(all.take(j as int), text@);
            lemma_training_steps_prefix(all, j + 1);
            to_multiset_len(training_steps(all.take(j as int)));
        }
        train(&mut table, text.as_slice());
        proof {
            lemma_multiset_commutative(training_steps(all.take(j as int)), line_steps(text@));
        }
        j += 1;
    }
    assert(all.take(j as int) =~= all);
    table
}

} // verus!
