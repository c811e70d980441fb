//! The transition table: contexts kept in lexicographic order, each with
//! its next characters in ascending order and their counts.

use crate::bags::{
    chars_distinct, contexts_distinct, lemma_copies, lemma_copies_add, lemma_entries_bag_around,
    lemma_entries_bag_concat, lemma_entries_bag_count, lemma_entries_bag_foreign,
    lemma_entries_bag_split, lemma_row_bag_around, lemma_row_bag_concat, lemma_row_bag_count,
    lemma_row_bag_foreign, lemma_row_bag_len, lemma_row_bag_single, lemma_row_total_bounds,
};
use crate::error::TableError;
use crate::model::{copies, entries_bag, row_bag, row_total, table_of, Entry, Step, Transitions};
use crate::order::{
    compare, lemma_precedes_asymmetric, lemma_precedes_single, lemma_precedes_transitive, precedes,
    Rank,
};
use crate::text::{chars_of, string_of};
use vstd::multiset::*;
use vstd::prelude::*;
use vstd::slice::slice_to_vec;
use vstd::string::StringExecFns;

verus! {

broadcast use group_multiset_axioms;

/// The next characters of the row stand in strictly ascending order.
pub open spec fn chars_ascending(nexts: Seq<(char, u64)>) -> bool {
    forall|i: int, j: int| 0 <= i < j < nexts.len() ==> nexts[i].0 < nexts[j].0
}

/// The contexts of the rows stand in strictly ascending lexicographic order.
pub open spec fn contexts_ascending(entries: Seq<Entry>) -> bool {
    forall|i: int, j: int| 0 <= i < j < entries.len() ==> precedes(entries[i].0, entries[j].0)
}

/// A row as a table keeps it: not empty, ascending, and no count of zero.
pub open spec fn row_canonical(nexts: Seq<(char, u64)>) -> bool {
    &&& nexts.len() > 0
    &&& chars_ascending(nexts)
    &&& forall|j: int| 0 <= j < nexts.len() ==> (#[trigger] nexts[j]).1 >= 1
}

/// A written-out table as a table keeps it: contexts ascending, every row
/// canonical, and all counts together within `u64`.
pub open spec fn canonical(entries: Seq<Entry>) -> bool {
    &&& contexts_ascending(entries)
    &&& forall|i: int| 0 <= i < entries.len() ==> row_canonical((#[trigger] entries[i]).1)
    &&& entries_bag(entries).len() <= u64::MAX
}

/// Ascending rows list no character twice.
pub proof fn lemma_ascending_chars_distinct(nexts: Seq<(char, u64)>)
    requires
        chars_ascending(nexts),
    ensures
        chars_distinct(nexts),
{
}

/// Ascending tables list no context twice.
pub proof fn lemma_ascending_contexts_distinct(entries: Seq<Entry>)
    requires
        contexts_ascending(entries),
    ensures
        contexts_distinct(entries),
{
    assert forall|i: int, j: int| 0 <= i < j < entries.len() implies entries[i].0 != entries[j].0 by {
        lemma_precedes_asymmetric(entries[i].0, entries[j].0);
    }
}

/// The steps that a canonical table counts from the context of its row `i`
/// are those of that row, and there is at least one.
pub proof fn lemma_listed_context(entries: Seq<Entry>, i: int)
    requires
        canonical(entries),
        0 <= i < entries.len(),
    ensures
        table_of(entries_bag(entries)).contains_key(entries[i].0),
        forall|c: char|
            entries_bag(entries).count((entries[i].0, c)) == row_bag(
                entries[i].0,
                entries[i].1,
            ).count((entries[i].0, c)),
{
    let k = entries[i].0;
    let bag = entries_bag(entries);
    lemma_ascending_contexts_distinct(entries);
    lemma_entries_bag_split(entries, i);
    assert forall|c: char| bag.count((k, c)) == row_bag(k, entries[i].1).count((k, c)) by {
        lemma_entries_bag_foreign(entries.take(i), k, c);
        lemma_entries_bag_foreign(entries.skip(i + 1), k, c);
    }
    assert(row_canonical(entries[i].1));
    lemma_ascending_chars_distinct(entries[i].1);
    lemma_entries_bag_count(entries, i, 0);
    assert(bag.count((k, entries[i].1[0].0)) > 0);
}

/// A table counts no step from a context that has no row.
pub proof fn lemma_unlisted_context(entries: Seq<Entry>, k: Seq<char>)
    requires
        forall|i: int| 0 <= i < entries.len() ==> entries[i].0 != k,
    ensures
        !table_of(entries_bag(entries)).contains_key(k),
{
    assert forall|c: char| entries_bag(entries).count((k, c)) == 0 by {
        lemma_entries_bag_foreign(entries, k, c);
    }
}

#[derive(Debug, PartialEq, Eq)]
struct Row {
    context: Vec<char>,
    nexts: Vec<(char, u64)>,
}

/// A table from context to next character to count.
#[derive(Debug, PartialEq, Eq)]
pub struct TransitionTable {
    rows: Vec<Row>,
    total: u64,
}

/// One of the first `bound` rows has the context that is `c` alone.
spec fn alone_before(entries: Seq<Entry>, bound: int, c: char) -> bool {
    exists|r: int| 0 <= r < bound && #[trigger] entries[r].0 == seq![c]
}

spec fn rows_entries(rows: Seq<Row>) -> Seq<Entry> {
    Seq::new(rows.len(), |i: int| (rows[i].context@, rows[i].nexts@))
}

impl View for TransitionTable {
    type V = Transitions;

    /// For each context, how often each next character followed it.
    open spec fn view(&self) -> Transitions {
        table_of(self.bag())
    }
}

/// Where `c` stands in an ascending row, or where it would have to be put.
fn find_char(nexts: &Vec<(char, u64)>, c: char) -> (r: Result<usize, usize>)
    requires
        chars_ascending(nexts@),
    ensures
        match r {
            Ok(j) => j < nexts.len() && nexts[j as int].0 == c,
            Err(j) => {
                &&& j <= nexts.len()
                &&& forall|i: int| 0 <= i < j ==> nexts[i].0 < c
                &&& forall|i: int| j <= i < nexts.len() ==> c < nexts[i].0
            },
        },
{
    let mut j: usize = 0;
    while j < nexts.len() && nexts[j].0 < c
        invariant
            j <= nexts.len(),
            forall|i: int| 0 <= i < j ==> nexts[i].0 < c,
        decreases nexts.len() - j,
    {
        j += 1;
    }
    if j < nexts.len() && nexts[j].0 == c {
        Ok(j)
    } else {
        Err(j)
    }
}

/// Adds `times` to the count of `c` in an ascending row, listing `c` first
/// where the row does not have it.
fn add_to_row(nexts: &mut Vec<(char, u64)>, c: char, times: u64)
    requires
        chars_ascending(old(nexts)@),
        forall|j: int| 0 <= j < old(nexts).len() ==> (#[trigger] old(nexts)[j]).1 >= 1,
        times >= 1,
        row_total(old(nexts)@) + times <= u64::MAX,
    ensures
        row_canonical(final(nexts)@),
        forall|context: Seq<char>| #[trigger]
            row_bag(context, final(nexts)@) == row_bag(context, old(nexts)@).add(
                copies((context, c), times as nat),
            ),
{
    let ghost before = nexts@;
    match find_char(nexts, c) {
        Ok(j) => {
            let n = nexts[j].1;
            proof {
                lemma_row_total_bounds(before, j as int);
            }
            nexts[j].1 = n + times;
            proof {
                let front = before.take(j as int);
                let back = before.skip(j + 1);
                assert(before =~= front + seq![(c, n)] + back);
                assert(nexts@ =~= front + seq![(c, (n + times) as u64)] + back);
                assert forall|context: Seq<char>| #[trigger]
                    row_bag(context, nexts@) == row_bag(context, before).add(
                        copies((context, c), times as nat),
                    ) by {
                    lemma_row_bag_around(context, front, c, n, back);
                    lemma_row_bag_around(context, front, c, (n + times) as u64, back);
                    lemma_copies_add((context, c), n as nat, times as nat);
                    assert(row_bag(context, nexts@) =~= row_bag(context, before).add(
                        copies((context, c), times as nat),
                    ));
                }
            }
        },
        Err(j) => {
            nexts.insert(j, (c, times));
            proof {
                let front = before.take(j as int);
                let back = before.skip(j as int);
                assert(before =~= front + back);
                assert(nexts@ =~= front + seq![(c, times)] + back);
                assert forall|context: Seq<char>| #[trigger]
                    row_bag(context, nexts@) == row_bag(context, before).add(
                        copies((context, c), times as nat),
                    ) by {
                    lemma_row_bag_around(context, front, c, times, back);
                    lemma_row_bag_concat(context, front, back);
                    assert(row_bag(context, nexts@) =~= row_bag(context, before).add(
                        copies((context, c), times as nat),
                    ));
                }
            }
        },
    }
}

/// Where `context` stands among ascending rows, or where it would have to
/// be put.
fn find_row(rows: &Vec<Row>, context: &[char]) -> (r: Result<usize, usize>)
    requires
        contexts_ascending(rows_entries(rows@)),
    ensures
        match r {
            Ok(i) => i < rows.len() && rows[i as int].context@ == context@,
            Err(i) => {
                &&& i <= rows.len()
                &&& forall|j: int| 0 <= j < i ==> precedes(rows[j].context@, context@)
                &&& forall|j: int| i <= j < rows.len() ==> precedes(context@, rows[j].context@)
            },
        },
{
    let ghost entries = rows_entries(rows@);
    let mut lo: usize = 0;
    let mut hi: usize = rows.len();
    while lo < hi
        invariant
            lo <= hi <= rows.len(),
            entries == rows_entries(rows@),
            contexts_ascending(entries),
            forall|j: int| 0 <= j < lo ==> precedes(rows[j].context@, context@),
            forall|j: int| hi <= j < rows.len() ==> precedes(context@, rows[j].context@),
        decreases hi - lo,
    {
        let mid = lo + (hi - lo) / 2;
        match compare(rows[mid].context.as_slice(), context) {
            Rank::Same => {
                return Ok(mid);
            },
            Rank::Before => {
                proof {
                    assert forall|j: int| 0 <= j < mid + 1 implies precedes(
                        rows[j].context@,
                        context@,
                    ) by {
                        if j < mid {
                            assert(precedes(entries[j].0, entries[mid as int].0));
                            lemma_precedes_transitive(
                                rows[j].context@,
                                rows[mid as int].context@,
                                context@,
                            );
                        }
                    }
                }
                lo = mid + 1;
            },
            Rank::After => {
                proof {
                    assert forall|j: int| mid <= j < rows.len() implies precedes(
                        context@,
                        rows[j].context@,
                    ) by {
                        if mid < j {
                            assert(precedes(entries[mid as int].0, entries[j].0));
                            lemma_precedes_transitive(
                                context@,
                                rows[mid as int].context@,
                                rows[j].context@,
                            );
                        }
                    }
                }
                hi = mid;
            },
        }
    }
    Err(lo)
}

impl TransitionTable {
    /// The rows of the table, written out in the order in which it keeps
    /// them.
    pub closed spec fn entries(&self) -> Seq<Entry> {
        rows_entries(self.rows@)
    }

    /// Every counted step, as often as it was counted.
    pub open spec fn bag(&self) -> Multiset<Step> {
        entries_bag(self.entries())
    }

    #[verifier::type_invariant]
    spec fn kept_canonical(&self) -> bool {
        &&& canonical(rows_entries(self.rows@))
        &&& self.total == entries_bag(rows_entries(self.rows@)).len()
    }

    /// The table without any context.
    pub fn new() -> (table: Self)
        ensures
            table.entries() == Seq::<Entry>::empty(),
            table.bag() == Multiset::<Step>::empty(),
    {
        let table = TransitionTable { rows: Vec::new(), total: 0 };
        assert(rows_entries(table.rows@) =~= Seq::<Entry>::empty());
        table
    }

    /// All counts of the table together.
    pub fn total(&self) -> (n: u64)
        ensures
            n == self.bag().len(),
    {
        proof {
            use_type_invariant(self);
        }
        self.total
    }

    /// Counts the step from `context` to `next` another `times` times. All
    /// counts of the table together have to fit in `u64` afterwards.
    pub fn record(&mut self, context: &[char], next: char, times: u64)
        requires
            old(self).bag().len() + times <= u64::MAX,
        ensures
            final(self).bag() == old(self).bag().add(copies((context@, next), times as nat)),
    {
        proof {
            use_type_invariant(&*self);
        }
        let ghost before = rows_entries(self.rows@);
        let ghost step = (context@, next);
        if times == 0 {
            assert(entries_bag(before).add(copies(step, 0)) =~= entries_bag(before));
            return ;
        }
        let mut taken = TransitionTable::new();
        std::mem::swap(&mut taken, self);
        let TransitionTable { rows, total } = taken;
        let mut rows = rows;
        let total = total + times;
        match find_row(&rows, context) {
            Ok(i) => {
                proof {
                    lemma_entries_bag_split(before, i as int);
                    lemma_row_bag_len(before[i as int].0, before[i as int].1);
                    assert(row_canonical(before[i as int].1));
                }
                add_to_row(&mut rows[i].nexts, next, times);
                proof {
                    let after = rows_entries(rows@);
                    let front = before.take(i as int);
                    let back = before.skip(i + 1);
                    assert(after =~= front + seq![after[i as int]] + back);
                    lemma_entries_bag_around(front, after[i as int], back);
                    assert(after[i as int].0 == context@);
                    assert(row_bag(context@, after[i as int].1) == row_bag(
                        context@,
                        before[i as int].1,
                    ).add(copies(step, times as nat)));
                    assert(entries_bag(after) =~= entries_bag(before).add(
                        copies(step, times as nat),
                    ));
                    lemma_copies(step, times as nat);
                    assert forall|a: int, b: int| 0 <= a < b < after.len() implies precedes(
                        after[a].0,
                        after[b].0,
                    ) by {
                        assert(after[a].0 == before[a].0);
                        assert(after[b].0 == before[b].0);
                    }
                    assert forall|a: int| 0 <= a < after.len() implies row_canonical(
                        (#[trigger] after[a]).1,
                    ) by {
                        if a != i {
                            assert(after[a] == before[a]);
                        }
                    }
                }
            },
            Err(i) => {
                let mut nexts: Vec<(char, u64)> = Vec::new();
                nexts.push((next, times));
                let row = Row { context: slice_to_vec(context), nexts };
                rows.insert(i, row);
                proof {
                    let after = rows_entries(rows@);
                    let front = before.take(i as int);
                    let back = before.skip(i as int);
                    let entry = (context@, seq![(next, times)]);
                    assert(rows@[i as int].nexts@ =~= seq![(next, times)]);
                    assert(before =~= front + back);
                    assert(after =~= front + seq![entry] + back);
                    lemma_entries_bag_around(front, entry, back);
                    lemma_entries_bag_concat(front, back);
                    lemma_row_bag_single(context@, next, times);
                    assert(entries_bag(after) =~= entries_bag(before).add(
                        copies(step, times as nat),
                    ));
                    lemma_copies(step, times as nat);
                    assert forall|a: int, b: int| 0 <= a < b < after.len() implies precedes(
                        after[a].0,
                        after[b].0,
                    ) by {
                        if b < i {
                            assert(after[a].0 == before[a].0 && after[b].0 == before[b].0);
                        } else if b == i {
                            assert(after[a].0 == before[a].0);
                        } else if a < i {
                            assert(after[a].0 == before[a].0 && after[b].0 == before[b - 1].0);
                        } else if a == i {
                            assert(after[b].0 == before[b - 1].0);
                        } else {
                            assert(after[a].0 == before[a - 1].0 && after[b].0 == before[b - 1].0);
                        }
                    }
                    assert forall|a: int| 0 <= a < after.len() implies row_canonical(
                        (#[trigger] after[a]).1,
                    ) by {
                        if a < i {
                            assert(after[a] == before[a]);
                        } else if a > i {
                            assert(after[a] == before[a - 1]);
                        }
                    }
                }
            },
        }
        *self = TransitionTable { rows, total };
    }

    /// The number of contexts.
    pub fn len(&self) -> (n: usize)
        ensures
            n == self.entries().len(),
    {
        self.rows.len()
    }

    /// The next characters counted after `context`, in ascending order with
    /// their counts, or `None` where the table does not have `context`.
    pub fn row(&self, context: &[char]) -> (r: Option<&Vec<(char, u64)>>)
        ensures
            r is Some <==> self@.contains_key(context@),
            r matches Some(nexts) ==> {
                &&& row_canonical(nexts@)
                &&& row_total(nexts@) <= u64::MAX
                &&& forall|c: char|
                    self.bag().count((context@, c)) == row_bag(context@, nexts@).count(
                        (context@, c),
                    )
            },
    {
        proof {
            use_type_invariant(self);
        }
        let ghost entries = rows_entries(self.rows@);
        match find_row(&self.rows, context) {
            Ok(i) => {
                proof {
                    lemma_listed_context(entries, i as int);
                    lemma_entries_bag_split(entries, i as int);
                    lemma_row_bag_len(entries[i as int].0, entries[i as int].1);
                    assert(row_canonical(entries[i as int].1));
                }
                Some(&self.rows[i].nexts)
            },
            Err(i) => {
                proof {
                    assert forall|j: int| 0 <= j < entries.len() implies entries[j].0
                        != context@ by {
                        if j < i {
                            lemma_precedes_asymmetric(entries[j].0, context@);
                        } else {
                            lemma_precedes_asymmetric(context@, entries[j].0);
                        }
                    }
                    lemma_unlisted_context(entries, context@);
                }
                None
            },
        }
    }

    /// The characters that are a context by themselves, in ascending order.
    pub fn start_letters(&self) -> (letters: Vec<char>)
        ensures
            forall|c: char| letters@.contains(c) <==> self@.contains_key(seq![c]),
            forall|a: int, b: int| 0 <= a < b < letters.len() ==> letters[a] < letters[b],
    {
        proof {
            use_type_invariant(self);
        }
        let ghost entries = rows_entries(self.rows@);
        let mut letters: Vec<char> = Vec::new();
        let mut i: usize = 0;
        while i < self.rows.len()
            invariant
                i <= self.rows.len(),
                entries == rows_entries(self.rows@),
                contexts_ascending(entries),
                forall|a: int| 0 <= a < letters.len() ==> alone_before(entries, i as int, #[trigger] letters[a]),
                forall|r: int|
                    0 <= r < i && (#[trigger] entries[r]).0.len() == 1 ==> letters@.contains(
                        entries[r].0[0],
                    ),
                forall|a: int, b: int| 0 <= a < b < letters.len() ==> letters[a] < letters[b],
            decreases self.rows.len() - i,
        {
            if self.rows[i].context.len() == 1 {
                let c = self.rows[i].context[0];
                let ghost before = letters@;
                proof {
                    assert(entries[i as int].0 =~= seq![c]);
                    assert forall|a: int| 0 <= a < before.len() implies before[a] < c by {
                        assert(alone_before(entries, i as int, before[a]));
                        let r = choose|r: int| 0 <= r < i && #[trigger] entries[r].0 == seq![before[a]];
                        assert(precedes(entries[r].0, entries[i as int].0));
                        lemma_precedes_single(before[a], c);
                    }
                }
                letters.push(c);
                proof {
                    assert(letters@[before.len() as int] == c);
                    assert forall|a: int| 0 <= a < letters.len() implies alone_before(
                        entries,
                        i + 1,
                        #[trigger] letters[a],
                    ) by {
                        if a < before.len() {
                            assert(alone_before(entries, i as int, before[a]));
                            let r = choose|r: int| 0 <= r < i && #[trigger] entries[r].0 == seq![before[a]];
                            assert(entries[r].0 == seq![letters[a]]);
                        } else {
                            assert(entries[i as int].0 == seq![letters[a]]);
                        }
                    }
                    assert forall|r: int|
                        0 <= r < i + 1 && (#[trigger] entries[r]).0.len() == 1 implies letters@.contains(
                        entries[r].0[0],
                    ) by {
                        if r < i {
                            let a = choose|a: int| 0 <= a < before.len() && before[a] == entries[r].0[0];
                            assert(letters@[a] == entries[r].0[0]);
                        }
                    }
                }
            } else {
                proof {
                    assert forall|a: int| 0 <= a < letters.len() implies alone_before(
                        entries,
                        i + 1,
                        #[trigger] letters[a],
                    ) by {
                        assert(alone_before(entries, i as int, letters[a]));
                        let r = choose|r: int| 0 <= r < i && #[trigger] entries[r].0 == seq![letters[a]];
                        assert(entries[r].0 == seq![letters[a]]);
                    }
                }
            }
            i += 1;
        }
        proof {
            assert forall|c: char| letters@.contains(c) <==> self@.contains_key(seq![c]) by {
                if letters@.contains(c) {
                    let a = choose|a: int| 0 <= a < letters.len() && letters[a] == c;
                    assert(alone_before(entries, i as int, letters[a]));
                    let r = choose|r: int| 0 <= r < i && #[trigger] entries[r].0 == seq![letters[a]];
                    lemma_listed_context(entries, r);
                } else {
                    assert forall|r: int| 0 <= r < entries.len() implies entries[r].0 != seq![c] by {
                        if entries[r].0 == seq![c] {
                            assert(entries[r].0.len() == 1);
                            assert(letters@.contains(entries[r].0[0]));
                        }
                    }
                    lemma_unlisted_context(entries, seq![c]);
                }
            }
        }
        letters
    }

    /// The rows of the table written out: each context as a string, with
    /// its next characters and their counts.
    pub fn to_entries(&self) -> (entries: Vec<(String, Vec<(char, u64)>)>)
        ensures
            entries.deep_view() == self.entries(),
            canonical(self.entries()),
    {
        proof {
            use_type_invariant(self);
        }
        let mut entries: Vec<(String, Vec<(char, u64)>)> = Vec::new();
        let mut i: usize = 0;
        while i < self.rows.len()
            invariant
                i <= self.rows.len(),
                entries.len() == i,
                forall|k: int|
                    0 <= k < i ==> (#[trigger] entries[k]).0@ == self.rows[k].context@
                        && entries[k].1@ == self.rows[k].nexts@,
            decreases self.rows.len() - i,
        {
            let context = string_of(self.rows[i].context.as_slice());
            let nexts = slice_to_vec(self.rows[i].nexts.as_slice());
            entries.push((context, nexts));
            i += 1;
        }
        proof {
            assert forall|k: int| 0 <= k < entries.len() implies entries.deep_view()[k]
                == rows_entries(self.rows@)[k] by {
                assert(entries[k].1.deep_view() =~= entries[k].1@);
            }
            assert(entries.deep_view() =~= rows_entries(self.rows@));
        }
        entries
    }

    /// The table that counts what the written-out rows `entries` say.
    ///
    /// Rows may come in any order, may repeat a context or a character,
    /// and may hold counts of zero, which count for nothing. The rows are
    /// refused only where all their counts together do not fit in `u64`.
    pub fn from_entries(entries: &Vec<(String, Vec<(char, u64)>)>) -> (r: Result<Self, TableError>)
        ensures
            r is Ok <==> entries_bag(entries.deep_view()).len() <= u64::MAX,
            r matches Ok(table) ==> table.bag() == entries_bag(entries.deep_view()) && canonical(
                table.entries(),
            ),
            r matches Err(e) ==> e matches TableError::Malformed(_),
    {
        let ghost all = entries.deep_view();
        let mut table = TransitionTable::new();
        let mut i: usize = 0;
        proof {
            assert(all.take(0) =~= Seq::<Entry>::empty());
        }
        while i < entries.len()
            invariant
                i <= entries.len(),
                all == entries.deep_view(),
                table.bag() == entries_bag(all.take(i as int)),
            decreases entries.len() - i,
        {
            let context = chars_of(entries[i].0.as_str());
            let nexts = &entries[i].1;
            let ghost row = all[i as int];
            proof {
                assert(row.0 == context@);
                assert(row.1 =~= nexts@);
                lemma_entries_bag_split(all, i as int);
                assert(row_bag(row.0, row.1.take(0)) == Multiset::<Step>::empty()) by {
                    assert(row.1.take(0) =~= Seq::<(char, u64)>::empty());
                }
                assert(table.bag().add(row_bag(row.0, row.1.take(0))) =~= table.bag());
            }
            let mut j: usize = 0;
            while j < nexts.len()
                invariant
                    j <= nexts.len(),
                    i < entries.len(),
                    all == entries.deep_view(),
                    row == all[i as int],
                    row.0 == context@,
                    row.1 == nexts@,
                    table.bag() == entries_bag(all.take(i as int)).add(
                        row_bag(row.0, row.1.take(j as int)),
                    ),
                    entries_bag(all) == entries_bag(all.take(i as int)).add(
                        row_bag(row.0, row.1),
                    ).add(entries_bag(all.skip(i + 1))),
                decreases nexts.len() - j,
            {
                let next = nexts[j].0;
                let times = nexts[j].1;
                proof {
                    let front = row.1.take(j as int);
                    let back = row.1.skip(j + 1);
                    assert(row.1 =~= front + seq![(next, times)] + back);
                    lemma_row_bag_around(row.0, front, next, times, back);
                    assert(row.1.take(j + 1) =~= front + seq![(next, times)] + Seq::<
                        (char, u64),
                    >::empty());
                    lemma_row_bag_around(row.0, front, next, times, Seq::<(char, u64)>::empty());
                    assert(row_bag(row.0, Seq::<(char, u64)>::empty()) == Multiset::<
                        Step,
                    >::empty());
                    lemma_copies((row.0, next), times as nat);
                    assert(row_bag(row.0, row.1.take(j + 1)) =~= row_bag(row.0, front).add(
                        copies((row.0, next), times as nat),
                    ));
                }
                match table.total().checked_add(times) {
                    None => {
                        return Err(
                            TableError::Malformed(
                                String::from_str("the counts do not fit in 64 bits"),
                            ),
                        );
                    },
                    Some(_) => {
                        table.record(context.as_slice(), next, times);
                        assert(table.bag() =~= entries_bag(all.take(i as int)).add(
                            row_bag(row.0, row.1.take(j + 1)),
                        ));
                    },
                }
                j += 1;
            }
            proof {
                assert(row.1.take(j as int) =~= row.1);
                assert(all.take(i + 1).drop_last() =~= all.take(i as int));
                assert(all.take(i + 1).last() == row);
            }
            i += 1;
        }
        proof {
            assert(all.take(i as int) =~= all);
            use_type_invariant(&table);
        }
        Ok(table)
    }

    /// How often the step from `context` to `next` was counted.
    pub fn count(&self, context: &[char], next: char) -> (n: u64)
        ensures
            n == self.bag().count((context@, next)),
    {
        match self.row(context) {
            None => {
                assert(!(self.bag().count((context@, next)) > 0));
                0
            },
            Some(nexts) => {
                match find_char(nexts, next) {
                    Ok(j) => {
                        proof {
                            lemma_ascending_chars_distinct(nexts@);
                            lemma_row_bag_count(context@, nexts@, j as int);
                        }
                        nexts[j].1
                    },
                    Err(j) => {
                        proof {
                            lemma_row_bag_foreign(context@, nexts@, context@, next);
                        }
                        0
                    },
                }
            },
        }
    }
}

impl Clone for TransitionTable {
    /// A table with the same rows.
    fn clone(&self) -> (copy: Self)
        ensures
            copy.entries() == self.entries(),
    {
        proof {
            use_type_invariant(self);
        }
        let mut rows: Vec<Row> = Vec::new();
        let mut i: usize = 0;
        while i < self.rows.len()
            invariant
                i <= self.rows.len(),
                rows.len() == i,
                rows_entries(rows@) == rows_entries(self.rows@).take(i as int),
            decreases self.rows.len() - i,
        {
            let row = Row {
                context: slice_to_vec(self.rows[i].context.as_slice()),
                nexts: slice_to_vec(self.rows[i].nexts.as_slice()),
            };
            assert(row.context@ == self.rows[i as int].context@);
            assert(row.nexts@ == self.rows[i as int].nexts@);
            let ghost before = rows@;
            rows.push(row);
            assert(rows@.len() == i + 1);
            assert forall|k: int| 0 <= k < rows@.len() implies rows_entries(rows@)[k]
                == rows_entries(self.rows@)[k] by {
                if k < i {
                    assert(rows@[k] == before[k]);
                    assert(rows_entries(before)[k] == rows_entries(self.rows@).take(i as int)[k]);
                }
            }
            i += 1;
            assert(rows_entries(rows@) =~= rows_entries(self.rows@).take(i as int));
        }
        assert(rows_entries(rows@) =~= rows_entries(self.rows@));
        TransitionTable { rows, total: self.total }
    }
}

} // verus!
