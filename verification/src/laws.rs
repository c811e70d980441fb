//! What holds of every table that training yields, and of every walk over
//! such a table.

use crate::bags::lemma_no_steps;
use crate::canon::lemma_canonical_unique;
use crate::model::{
    context_at, lemma_training_steps_push, line_steps, next_at, training_steps, transitions,
    Step, SLICE_WINDOW_SIZE, TERMINATOR,
};
use crate::sampler::{follows, has_start, is_walk, lemma_walk_grows, may_end, window};
use crate::table::{canonical, TransitionTable};
use vstd::multiset::*;
use vstd::prelude::*;
use vstd::seq_lib::{lemma_multiset_commutative, to_multiset_len};

verus! {

broadcast use group_multiset_axioms;

/// Position `i` of the training string `lines[j]` is counted, and what is
/// counted there is the step from `k` to `c`.
pub open spec fn is_step_at(lines: Seq<Seq<char>>, j: int, i: int, k: Seq<char>, c: char) -> bool {
    &&& 0 <= j < lines.len()
    &&& lines[j].len() >= SLICE_WINDOW_SIZE
    &&& 0 <= i < lines[j].len()
    &&& context_at(lines[j], i) == k
    &&& next_at(lines[j], i) == c
}

/// Some position of some training string gives the step from `k` to `c`.
pub open spec fn occurs(lines: Seq<Seq<char>>, k: Seq<char>, c: char) -> bool {
    exists|j: int, i: int| is_step_at(lines, j, i, k, c)
}

/// The table has counted the step from `k` to `c`.
pub open spec fn counted(lines: Seq<Seq<char>>, k: Seq<char>, c: char) -> bool {
    transitions(lines).contains_key(k) && transitions(lines)[k].contains_key(c)
}

/// Training on strings written in two parts gives the steps of the first
/// part, then those of the second.
pub proof fn lemma_training_steps_concat(a: Seq<Seq<char>>, b: Seq<Seq<char>>)
    ensures
        training_steps(a + b) == training_steps(a) + training_steps(b),
    decreases b.len(),
{
    if b.len() == 0 {
        assert(a + b =~= a);
        assert(training_steps(a) + training_steps(b) =~= training_steps(a));
    } else {
        assert((a + b).drop_last() =~= a + b.drop_last());
        lemma_training_steps_concat(a, b.drop_last());
        assert(training_steps(a + b) =~= training_steps(a) + training_steps(b));
    }
}

/// Every counted position of a training string is among the steps.
proof fn lemma_steps_contain(lines: Seq<Seq<char>>, j: int, i: int)
    requires
        0 <= j < lines.len(),
        lines[j].len() >= SLICE_WINDOW_SIZE,
        0 <= i < lines[j].len(),
    ensures
        training_steps(lines).contains((context_at(lines[j], i), next_at(lines[j], i))),
    decreases lines.len(),
{
    let front = training_steps(lines.drop_last());
    let steps = training_steps(lines);
    let step = (context_at(lines[j], i), next_at(lines[j], i));
    if j == lines.len() - 1 {
        assert(line_steps(lines.last())[i] == step);
        assert(steps[front.len() + i] == step);
    } else {
        lemma_steps_contain(lines.drop_last(), j, i);
        let at = choose|at: int| 0 <= at < front.len() && front[at] == step;
        assert(steps[at] == step);
    }
}

/// Every step comes from a counted position of a training string.
proof fn lemma_steps_origin(lines: Seq<Seq<char>>, step: Step)
    requires
        training_steps(lines).contains(step),
    ensures
        occurs(lines, step.0, step.1),
    decreases lines.len(),
{
    let steps = training_steps(lines);
    let at = choose|at: int| 0 <= at < steps.len() && steps[at] == step;
    if lines.len() > 0 {
        let front = training_steps(lines.drop_last());
        if at < front.len() {
            assert(front[at] == step);
            lemma_steps_origin(lines.drop_last(), step);
            let (j, i) = choose|j: int, i: int| is_step_at(lines.drop_last(), j, i, step.0, step.1);
            assert(is_step_at(lines, j, i, step.0, step.1));
        } else {
            let i = at - front.len();
            assert(line_steps(lines.last())[i] == step);
            assert(is_step_at(lines, lines.len() - 1, i, step.0, step.1));
        }
    }
}

/// A trained table has counted a step exactly if some position of some
/// training string gives it.
pub proof fn lemma_counted_iff_occurs(lines: Seq<Seq<char>>, k: Seq<char>, c: char)
    ensures
        counted(lines, k, c) <==> occurs(lines, k, c),
{
    let steps = training_steps(lines);
    steps.to_multiset_ensures();
    if occurs(lines, k, c) {
        let (j, i) = choose|j: int, i: int| is_step_at(lines, j, i, k, c);
        lemma_steps_contain(lines, j, i);
        assert(steps.to_multiset().count((k, c)) > 0);
    }
    if counted(lines, k, c) {
        assert(steps.to_multiset().count((k, c)) > 0);
        assert(steps.contains((k, c)));
        lemma_steps_origin(lines, (k, c));
    }
}

/// A trained table has a context exactly if it has counted some step from
/// it, and every count that it holds is at least one.
pub proof fn lemma_counts_positive(lines: Seq<Seq<char>>, k: Seq<char>)
    ensures
        transitions(lines).contains_key(k) <==> exists|c: char| counted(lines, k, c),
        forall|c: char| counted(lines, k, c) ==> transitions(lines)[k][c] >= 1,
{
    let bag = training_steps(lines).to_multiset();
    if transitions(lines).contains_key(k) {
        let c = choose|c: char| bag.count((k, c)) > 0;
        assert(counted(lines, k, c));
    }
}

/// Every context of a trained table has between one and
/// `SLICE_WINDOW_SIZE` characters.
pub proof fn lemma_context_lengths(lines: Seq<Seq<char>>, k: Seq<char>)
    requires
        transitions(lines).contains_key(k),
    ensures
        1 <= k.len() <= SLICE_WINDOW_SIZE,
{
    lemma_counts_positive(lines, k);
    let c = choose|c: char| counted(lines, k, c);
    lemma_counted_iff_occurs(lines, k, c);
    let (j, i) = choose|j: int, i: int| is_step_at(lines, j, i, k, c);
}

/// Where no training string holds the terminator, no context of the
/// trained table holds it.
pub proof fn lemma_contexts_without_terminator(lines: Seq<Seq<char>>, k: Seq<char>)
    requires
        forall|j: int, i: int|
            0 <= j < lines.len() && 0 <= i < lines[j].len() ==> lines[j][i] != TERMINATOR,
        transitions(lines).contains_key(k),
    ensures
        forall|p: int| 0 <= p < k.len() ==> k[p] != TERMINATOR,
{
    lemma_counts_positive(lines, k);
    let c = choose|c: char| counted(lines, k, c);
    lemma_counted_iff_occurs(lines, k, c);
    let (j, i) = choose|j: int, i: int| is_step_at(lines, j, i, k, c);
    assert forall|p: int| 0 <= p < k.len() implies k[p] != TERMINATOR by {
        let start = if i >= SLICE_WINDOW_SIZE {
            i - SLICE_WINDOW_SIZE + 1
        } else {
            0
        };
        assert(k[p] == lines[j][start + p]);
    }
}

/// Count conservation: a training string of at least `SLICE_WINDOW_SIZE`
/// characters adds exactly one to the counts of the table for each of its
/// characters, the terminator after the last one included; a shorter one
/// adds nothing.
pub proof fn lemma_count_conservation(lines: Seq<Seq<char>>, s: Seq<char>)
    ensures
        line_steps(s).len() == if s.len() >= SLICE_WINDOW_SIZE {
            s.len()
        } else {
            0
        },
        training_steps(lines.push(s)).to_multiset().len() == training_steps(
            lines,
        ).to_multiset().len() + line_steps(s).len(),
{
    lemma_training_steps_push(lines, s);
    to_multiset_len(training_steps(lines.push(s)));
    to_multiset_len(training_steps(lines));
}

/// The order of the training strings is of no account: training sets
/// that hold the same strings equally often yield the same table.
pub proof fn lemma_order_irrelevant(a: Seq<Seq<char>>, b: Seq<Seq<char>>)
    requires
        a.to_multiset() == b.to_multiset(),
    ensures
        training_steps(a).to_multiset() == training_steps(b).to_multiset(),
        transitions(a) == transitions(b),
    decreases a.len(),
{
    a.to_multiset_ensures();
    b.to_multiset_ensures();
    if a.len() == 0 {
        assert(b.len() == 0);
        lemma_no_steps(training_steps(a));
        lemma_no_steps(training_steps(b));
    } else {
        let x = a.last();
        let front = a.drop_last();
        assert(a =~= front.push(x));
        front.to_multiset_ensures();
        assert(a.to_multiset().count(x) > 0);
        assert(b.contains(x));
        let at = choose|at: int| 0 <= at < b.len() && b[at] == x;
        let rest = b.remove(at);
        assert(front.to_multiset() =~= a.to_multiset().remove(x));
        assert(rest.to_multiset() =~= b.to_multiset().remove(x));
        lemma_order_irrelevant(front, rest);
        let left = b.take(at);
        let right = b.skip(at + 1);
        assert(b =~= left + seq![x] + right);
        assert(rest =~= left + right);
        lemma_training_steps_concat(left + seq![x], right);
        lemma_training_steps_concat(left, seq![x]);
        lemma_training_steps_concat(left, right);
        assert(seq![x] =~= Seq::<Seq<char>>::empty().push(x));
        lemma_training_steps_push(Seq::<Seq<char>>::empty(), x);
        assert(training_steps(seq![x]) =~= line_steps(x));
        lemma_training_steps_push(front, x);
        lemma_multiset_commutative(training_steps(front), line_steps(x));
        lemma_multiset_commutative(training_steps(left) + line_steps(x), training_steps(right));
        lemma_multiset_commutative(training_steps(left), line_steps(x));
        lemma_multiset_commutative(training_steps(left), training_steps(right));
        assert(training_steps(a).to_multiset() =~= training_steps(b).to_multiset());
    }
}

/// Determinism: two tables built from the same training strings have the
/// same rows and the same counts.
pub proof fn lemma_build_deterministic(
    lines: Seq<Seq<char>>,
    first: TransitionTable,
    second: TransitionTable,
)
    requires
        canonical(first.entries()),
        canonical(second.entries()),
        first.bag() == training_steps(lines).to_multiset(),
        second.bag() == training_steps(lines).to_multiset(),
    ensures
        first.entries() == second.entries(),
        first@ == second@,
{
    lemma_canonical_unique(first.entries(), second.entries());
}

/// Start symbols: the first character of every training string of at
/// least `SLICE_WINDOW_SIZE` characters is a context by itself.
pub proof fn lemma_start_symbol(lines: Seq<Seq<char>>, j: int)
    requires
        0 <= j < lines.len(),
        lines[j].len() >= SLICE_WINDOW_SIZE,
    ensures
        transitions(lines).contains_key(seq![lines[j][0]]),
        has_start(transitions(lines)),
{
    let s = lines[j];
    assert(context_at(s, 0) =~= seq![s[0]]);
    assert(is_step_at(lines, j, 0, seq![s[0]], next_at(s, 0)));
    lemma_counted_iff_occurs(lines, seq![s[0]], next_at(s, 0));
}

/// Where the window of `name` is the context at position `i` of `s`, the
/// window of `name` with the next character of `s` is the context at
/// position `i + 1`.
pub proof fn lemma_window_advances(s: Seq<char>, i: int, name: Seq<char>)
    requires
        0 <= i,
        i + 1 < s.len(),
        name.len() >= 1,
        window(name) == context_at(s, i),
    ensures
        window(name.push(s[i + 1])) == context_at(s, i + 1),
{
    let k = window(name);
    let longer = name.push(s[i + 1]);
    let from_name = if name.len() > SLICE_WINDOW_SIZE {
        name.len() - SLICE_WINDOW_SIZE
    } else {
        0
    };
    let from_line = if i >= SLICE_WINDOW_SIZE {
        i - SLICE_WINDOW_SIZE + 1
    } else {
        0
    };
    assert(k.len() == name.len() - from_name);
    assert(k.len() == i + 1 - from_line);
    assert forall|p: int| 0 <= p < k.len() implies #[trigger] k[p] == name[from_name + p] && k[p]
        == s[from_line + p] by {
        assert(window(name)[p] == name[from_name + p]);
        assert(context_at(s, i)[p] == s[from_line + p]);
    }
    let later_name = window(longer);
    let later_line = context_at(s, i + 1);
    let from_longer = if longer.len() > SLICE_WINDOW_SIZE {
        longer.len() - SLICE_WINDOW_SIZE
    } else {
        0
    };
    let from_later = if i + 1 >= SLICE_WINDOW_SIZE {
        i + 2 - SLICE_WINDOW_SIZE
    } else {
        0
    };
    assert(later_name.len() == later_line.len());
    assert forall|p: int| 0 <= p < later_name.len() implies later_name[p] == later_line[p] by {
        assert(later_name[p] == longer[from_longer + p]);
        assert(later_line[p] == s[from_later + p]);
        if from_longer + p < name.len() {
            let q = from_longer - from_name + p;
            assert(k[q] == name[from_name + q] && k[q] == s[from_line + q]);
        }
    }
    assert(later_name =~= later_line);
}

/// A character that a trained table lets follow `name` leads to a context
/// that the table has as well.
pub proof fn lemma_next_context_trained(lines: Seq<Seq<char>>, name: Seq<char>, c: char)
    requires
        name.len() >= 1,
        follows(transitions(lines), name, c),
    ensures
        transitions(lines).contains_key(window(name.push(c))),
{
    let k = window(name);
    lemma_counted_iff_occurs(lines, k, c);
    let (j, i) = choose|j: int, i: int| is_step_at(lines, j, i, k, c);
    let s = lines[j];
    lemma_window_advances(s, i, name);
    assert(is_step_at(lines, j, i + 1, context_at(s, i + 1), next_at(s, i + 1)));
    lemma_counted_iff_occurs(lines, context_at(s, i + 1), next_at(s, i + 1));
}

/// A walk over a trained table never leaves it: whatever has been drawn
/// so far, the table has the context under which the next character is
/// drawn.
pub proof fn lemma_trained_walk_has_context(lines: Seq<Seq<char>>, name: Seq<char>)
    requires
        is_walk(transitions(lines), name),
    ensures
        transitions(lines).contains_key(window(name)),
    decreases name.len(),
{
    if name.len() == 1 {
        assert(window(name) =~= seq![name[0]]);
    } else {
        let front = name.drop_last();
        assert(front =~= name.take(name.len() - 1));
        assert(follows(transitions(lines), name.take(name.len() - 1), name[name.len() - 1]));
        assert(name =~= front.push(name.last()));
        lemma_next_context_trained(lines, front, name.last());
    }
}

/// Where the window of a walk is the context at position `i` of a counted
/// training string, the walk can go on along that string and end in fewer
/// steps than the string has characters left.
proof fn lemma_ends_along(lines: Seq<Seq<char>>, name: Seq<char>, j: int, i: int)
    requires
        is_walk(transitions(lines), name),
        0 <= j < lines.len(),
        lines[j].len() >= SLICE_WINDOW_SIZE,
        0 <= i < lines[j].len(),
        window(name) == context_at(lines[j], i),
    ensures
        exists|tail: Seq<char>|
            {
                &&& #[trigger] is_walk(transitions(lines), name + tail)
                &&& may_end(transitions(lines), name + tail)
                &&& tail.len() < lines[j].len() - i
            },
    decreases lines[j].len() - i,
{
    let table = transitions(lines);
    let s = lines[j];
    let c = next_at(s, i);
    assert(is_step_at(lines, j, i, window(name), c));
    lemma_counted_iff_occurs(lines, window(name), c);
    if c == TERMINATOR {
        let tail = Seq::<char>::empty();
        assert(name + tail =~= name);
        assert(is_walk(table, name + tail));
    } else {
        let longer = name.push(c);
        lemma_walk_grows(table, name, c);
        lemma_window_advances(s, i, name);
        lemma_ends_along(lines, longer, j, i + 1);
        let rest = choose|rest: Seq<char>|
            {
                &&& #[trigger] is_walk(table, longer + rest)
                &&& may_end(table, longer + rest)
                &&& rest.len() < s.len() - (i + 1)
            };
        let tail = seq![c] + rest;
        assert(name + tail =~= longer + rest);
        assert(is_walk(table, name + tail));
    }
}

/// Wherever a walk over a trained table stands, it can still end: some
/// run of further draws, each of which the table allows, leads to a place
/// where the terminator can be drawn.
pub proof fn lemma_trained_walk_can_end(lines: Seq<Seq<char>>, name: Seq<char>)
    requires
        is_walk(transitions(lines), name),
    ensures
        exists|tail: Seq<char>|
            {
                &&& #[trigger] is_walk(transitions(lines), name + tail)
                &&& may_end(transitions(lines), name + tail)
            },
{
    lemma_trained_walk_has_context(lines, name);
    let k = window(name);
    lemma_counts_positive(lines, k);
    let c = choose|c: char| counted(lines, k, c);
    lemma_counted_iff_occurs(lines, k, c);
    let (j, i) = choose|j: int, i: int| is_step_at(lines, j, i, k, c);
    lemma_ends_along(lines, name, j, i);
}

} // verus!
