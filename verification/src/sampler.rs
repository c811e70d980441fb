//! Sampling: a weighted random walk over a transition table.

use crate::bags::{lemma_row_bag_count, lemma_row_total_bounds};
use crate::error::SampleError;
use crate::model::{Transitions, SLICE_WINDOW_SIZE, TERMINATOR};
use crate::random::{choose_letter, draw_index};
use crate::table::{lemma_ascending_chars_distinct, TransitionTable};
use crate::text::string_of;
use rand::rngs::StdRng;
use vstd::pervasive::unreached;
use vstd::prelude::*;
use vstd::slice::slice_subrange;

verus! {

/// The context under which the character after `name` is drawn: the last
/// `SLICE_WINDOW_SIZE` characters of `name`, or all of it where it has
/// fewer.
pub open spec fn window(name: Seq<char>) -> Seq<char> {
    name.subrange(
        if name.len() > SLICE_WINDOW_SIZE {
            name.len() - SLICE_WINDOW_SIZE
        } else {
            0
        },
        name.len() as int,
    )
}

/// The table has a context of exactly one character.
pub open spec fn has_start(table: Transitions) -> bool {
    exists|c: char| table.contains_key(seq![c])
}

/// The character `c` may be drawn after `name`: it is no terminator and
/// the table has counted it after the window of `name`.
pub open spec fn follows(table: Transitions, name: Seq<char>, c: char) -> bool {
    &&& c != TERMINATOR
    &&& table.contains_key(window(name))
    &&& table[window(name)].contains_key(c)
}

/// The walk may stop after `name`: the table has counted the terminator
/// after the window of `name`.
pub open spec fn may_end(table: Transitions, name: Seq<char>) -> bool {
    &&& table.contains_key(window(name))
    &&& table[window(name)].contains_key(TERMINATOR)
}

/// `name` is what a walk over the table can have drawn so far: its first
/// character is a context by itself, and every later one follows what
/// stands before it.
pub open spec fn is_walk(table: Transitions, name: Seq<char>) -> bool {
    &&& name.len() >= 1
    &&& table.contains_key(seq![name[0]])
    &&& forall|i: int| 1 <= i < name.len() ==> follows(table, #[trigger] name.take(i), name[i])
}

/// The longest name that a walk bounded by `max_len` returns.
pub open spec fn limit_of(max_len: Option<usize>) -> nat {
    match max_len {
        Some(n) => n as nat,
        None => usize::MAX as nat,
    }
}

/// A walk of one more character: `name` followed by `c`.
pub proof fn lemma_walk_grows(table: Transitions, name: Seq<char>, c: char)
    requires
        is_walk(table, name),
        follows(table, name, c),
    ensures
        is_walk(table, name.push(c)),
{
    let longer = name.push(c);
    assert forall|i: int| 1 <= i < longer.len() implies follows(
        table,
        #[trigger] longer.take(i),
        longer[i],
    ) by {
        if i < name.len() {
            assert(longer.take(i) =~= name.take(i));
        } else {
            assert(longer.take(i) =~= name);
        }
    }
}

/// What the entry at `index` of a row says comes next: its character, or
/// `None` where that is the terminator.
pub fn letter_at(nexts: &Vec<(char, u64)>, index: usize) -> (r: Option<char>)
    requires
        index < nexts.len(),
    ensures
        r == if nexts[index as int].0 == TERMINATOR {
            None
        } else {
            Some(nexts[index as int].0)
        },
{
    let next = nexts[index].0;
    if next == TERMINATOR {
        None
    } else {
        Some(next)
    }
}

/// Draws the first character of a name: one of the characters that are a
/// context by themselves, each with the same chance.
pub fn choose_first_letter(map: &TransitionTable, rng: &mut StdRng) -> (r: Result<char, SampleError>)
    ensures
        match r {
            Ok(c) => map@.contains_key(seq![c]),
            Err(SampleError::MissingStartSymbol) => !has_start(map@),
            Err(_) => false,
        },
        r is Ok <==> has_start(map@),
{
    let letters = map.start_letters();
    match choose_letter(rng, &letters) {
        Some(c) => Ok(c),
        None => {
            proof {
                assert forall|c: char| !map@.contains_key(seq![c]) by {
                    assert(!letters@.contains(c));
                }
            }
            Err(SampleError::MissingStartSymbol)
        },
    }
}

/// Draws what comes after `name`: a character, with a chance proportional
/// to its count after the window of `name`, or `None` where the
/// terminator was drawn.
pub fn get_next_letter(name: &Vec<char>, map: &TransitionTable, rng: &mut StdRng) -> (r: Result<Option<char>, SampleError>)
    ensures
        match r {
            Ok(Some(c)) => follows(map@, name@, c),
            Ok(None) => may_end(map@, name@),
            Err(SampleError::MissingContext(context)) => context@ == window(name@),
            Err(_) => false,
        },
        r is Ok <==> map@.contains_key(window(name@)),
{
    let n = name.len();
    let start = if n > SLICE_WINDOW_SIZE {
        n - SLICE_WINDOW_SIZE
    } else {
        0
    };
    let context = slice_subrange(name.as_slice(), start, n);
    match map.row(context) {
        None => Err(SampleError::MissingContext(string_of(context))),
        Some(nexts) => {
            proof {
                lemma_row_total_bounds(nexts@, 0);
            }
            match draw_index(rng, nexts) {
                Ok(index) => {
                    proof {
                        lemma_ascending_chars_distinct(nexts@);
                        lemma_row_bag_count(context@, nexts@, index as int);
                    }
                    Ok(letter_at(nexts, index))
                },
                Err(_) => unreached(),
            }
        },
    }
}

/// Generates one name by a random walk over `transition_map`.
///
/// The walk starts at a character that is a context by itself and goes on
/// until the terminator is drawn. It never returns a name of more than
/// `max_len` characters, where one is given: it gives up when the next
/// character would make the name longer.
pub fn generate_name(transition_map: &TransitionTable, rng: &mut StdRng, max_len: Option<usize>) -> (r: Result<String, SampleError>)
    ensures
        match r {
            Ok(name) => {
                &&& is_walk(transition_map@, name@)
                &&& may_end(transition_map@, name@)
                &&& name@.len() <= limit_of(max_len)
            },
            Err(SampleError::MissingStartSymbol) => !has_start(transition_map@),
            Err(SampleError::MissingContext(context)) => exists|walk: Seq<char>|
                {
                    &&& is_walk(transition_map@, walk)
                    &&& walk.len() <= limit_of(max_len)
                    &&& window(walk) == context@
                    &&& !transition_map@.contains_key(context@)
                },
            Err(SampleError::LengthLimit) => exists|walk: Seq<char>|
                is_walk(transition_map@, walk) && walk.len() == limit_of(max_len) + 1,
        },
        has_start(transition_map@) <==> !(r matches Err(SampleError::MissingStartSymbol)),
{
    let limit = match max_len {
        Some(n) => n,
        None => usize::MAX,
    };
    let first = match choose_first_letter(transition_map, rng) {
        Ok(c) => c,
        Err(e) => {
            return Err(e);
        },
    };
    if limit == 0 {
        assert(is_walk(transition_map@, seq![first]));
        return Err(SampleError::LengthLimit);
    }
    let mut generated_name: Vec<char> = Vec::new();
    generated_name.push(first);
    assert(generated_name@ =~= seq![first]);
    loop
        invariant
            limit == limit_of(max_len),
            is_walk(transition_map@, generated_name@),
            generated_name.len() <= limit,
            has_start(transition_map@),
        decreases limit - generated_name.len(),
    {
        match get_next_letter(&generated_name, transition_map, rng) {
            Ok(Some(next)) => {
                proof {
                    lemma_walk_grows(transition_map@, generated_name@, next);
                }
                if generated_name.len() == limit {
                    return Err(SampleError::LengthLimit);
                }
                generated_name.push(next);
            },
            Ok(None) => {
                return Ok(string_of(generated_name.as_slice()));
            },
            Err(e) => {
                return Err(e);
            },
        }
    }
}

} // verus!
