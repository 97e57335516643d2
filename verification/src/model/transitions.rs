use vstd::prelude::*;
use vstd::array::array_as_slice;
use crate::index::Index;
use crate::index::hash_of_tokens;
use crate::index::hash_tokens;
use crate::dataset::Corpus;
use crate::dataset::Dataset;
use crate::dataset::corpora_of;
use crate::dataset::weighted;
use crate::ngram::Bigram;
use crate::ngram::Ngram;
use crate::ngram::Trigram;
use crate::ngram::Unigram;
use crate::ngram::has_end;
use crate::ngram::has_start;
use crate::ngram::lift;
use crate::ngram::window_at;
use crate::tokenized_messages::Sentence;
use crate::tokenized_messages::TokenizedMessages;
use crate::tokenized_messages::sentences_of;

verus! {

/// How often the window `b` stands directly behind the window `a` in
/// `windows`.
pub open spec fn steps(windows: Seq<Seq<u64>>, a: Seq<u64>, b: Seq<u64>) -> nat
    decreases windows.len(),
{
    if windows.len() < 2 {
        0
    } else {
        steps(windows.drop_last(), a, b) + if windows[windows.len() - 2] == a && windows.last() == b {
            1nat
        } else {
            0nat
        }
    }
}

/// How often `b` follows `a` in the liftings of `sentences` at order `n`.
pub open spec fn corpus_steps(sentences: Seq<Sentence>, n: nat, a: Seq<u64>, b: Seq<u64>) -> nat
    decreases sentences.len(),
{
    if sentences.len() == 0 {
        0
    } else {
        corpus_steps(sentences.drop_last(), n, a, b) + steps(lift(sentences.last(), n), a, b)
    }
}

/// How often `b` follows `a` at order `n` in all of `corpora`, each step
/// counted with the weight of its corpus.
pub open spec fn dataset_steps(corpora: Seq<Corpus>, n: nat, a: Seq<u64>, b: Seq<u64>) -> nat
    decreases corpora.len(),
{
    if corpora.len() == 0 {
        0
    } else {
        dataset_steps(corpora.drop_last(), n, a, b) + (corpora.last().1 as nat) * corpus_steps(
            corpora.last().0,
            n,
            a,
            b,
        )
    }
}

/// How often the window `x` takes part in a step of `windows`: as the
/// window that the step leaves where `leaving` is set, as the window that
/// the step reaches where it is not.
pub open spec fn passes(windows: Seq<Seq<u64>>, leaving: bool, x: Seq<u64>) -> nat
    decreases windows.len(),
{
    if windows.len() < 2 {
        0
    } else {
        passes(windows.drop_last(), leaving, x) + if (if leaving {
            windows[windows.len() - 2]
        } else {
            windows.last()
        }) == x {
            1nat
        } else {
            0nat
        }
    }
}

/// How often `x` takes part in a step of the liftings of `sentences` at
/// order `n`.
pub open spec fn corpus_passes(sentences: Seq<Sentence>, n: nat, leaving: bool, x: Seq<u64>) -> nat
    decreases sentences.len(),
{
    if sentences.len() == 0 {
        0
    } else {
        corpus_passes(sentences.drop_last(), n, leaving, x) + passes(lift(sentences.last(), n), leaving, x)
    }
}

/// How often `x` takes part in a step at order `n` in all of `corpora`,
/// each step counted with the weight of its corpus.
pub open spec fn dataset_passes(corpora: Seq<Corpus>, n: nat, leaving: bool, x: Seq<u64>) -> nat
    decreases corpora.len(),
{
    if corpora.len() == 0 {
        0
    } else {
        dataset_passes(corpora.drop_last(), n, leaving, x) + (corpora.last().1 as nat) * corpus_passes(
            corpora.last().0,
            n,
            leaving,
            x,
        )
    }
}

/// Every count of the table of order `n` over `corpora` fits a `u64`.
pub open spec fn counts_fit(corpora: Seq<Corpus>, n: nat) -> bool {
    forall|a: Seq<u64>, b: Seq<u64>| #[trigger] dataset_steps(corpora, n, a, b) <= u64::MAX
}

/// One context of a table with the n-grams seen behind it and their counts.
#[derive(Debug)]
pub struct Row<const N: usize> {
    pub current: Ngram<N>,
    pub next: Vec<(Ngram<N>, u64)>,
}

/// The count that a list of successors holds for `b`.
pub open spec fn next_count<const N: usize>(next: Seq<(Ngram<N>, u64)>, b: Seq<u64>) -> nat
    decreases next.len(),
{
    if next.len() == 0 {
        0
    } else {
        next_count(next.drop_last(), b) + if next.last().0@ == b {
            next.last().1 as nat
        } else {
            0nat
        }
    }
}

/// The count that a row holds for the step from `a` to `b`.
pub open spec fn row_count<const N: usize>(row: Row<N>, a: Seq<u64>, b: Seq<u64>) -> nat {
    if row.current@ == a {
        next_count(row.next@, b)
    } else {
        0
    }
}

/// The count that a list of rows holds for the step from `a` to `b`.
pub open spec fn rows_count<const N: usize>(rows: Seq<Row<N>>, a: Seq<u64>, b: Seq<u64>) -> nat
    decreases rows.len(),
{
    if rows.len() == 0 {
        0
    } else {
        rows_count(rows.drop_last(), a, b) + row_count(rows.last(), a, b)
    }
}

/// The sum of the counts of a list of successors.
pub open spec fn next_total<const N: usize>(next: Seq<(Ngram<N>, u64)>) -> nat
    decreases next.len(),
{
    if next.len() == 0 {
        0
    } else {
        next_total(next.drop_last()) + next.last().1 as nat
    }
}

/// What a row adds to the sum of the counts of the steps that `x` takes
/// part in: all its counts where `x` is its context and `leaving` is set,
/// the count of the successor `x` where `leaving` is not set.
pub open spec fn row_sum<const N: usize>(row: Row<N>, leaving: bool, x: Seq<u64>) -> nat {
    if leaving {
        if row.current@ == x {
            next_total(row.next@)
        } else {
            0
        }
    } else {
        next_count(row.next@, x)
    }
}

/// The sum of the counts of the steps that leave `x` (where `leaving` is
/// set) or that reach `x` (where it is not).
pub open spec fn rows_sum<const N: usize>(rows: Seq<Row<N>>, leaving: bool, x: Seq<u64>) -> nat
    decreases rows.len(),
{
    if rows.len() == 0 {
        0
    } else {
        rows_sum(rows.drop_last(), leaving, x) + row_sum(rows.last(), leaving, x)
    }
}

/// What a sum of counts becomes when the step from `a` to `b` is seen
/// `weight` times more.
pub open spec fn touched(a: Seq<u64>, b: Seq<u64>, weight: nat, leaving: bool, x: Seq<u64>) -> nat {
    if (if leaving {
        a
    } else {
        b
    }) == x {
        weight
    } else {
        0
    }
}

/// What one more entry at the end of a list of successors adds to the sum
/// of the counts.
proof fn lemma_total_push<const N: usize>(next: Seq<(Ngram<N>, u64)>, entry: (Ngram<N>, u64))
    ensures
        next_total(next.push(entry)) == next_total(next) + entry.1,
{
    assert(next.push(entry).drop_last() =~= next);
}

/// What another entry in the place of one changes in the sum of the
/// counts.
proof fn lemma_total_update<const N: usize>(next: Seq<(Ngram<N>, u64)>, j: int, entry: (Ngram<N>, u64))
    requires
        0 <= j < next.len(),
    ensures
        next_total(next.update(j, entry)) + next[j].1 == next_total(next) + entry.1,
    decreases next.len(),
{
    let changed = next.update(j, entry);
    if j == next.len() - 1 {
        assert(changed.drop_last() =~= next.drop_last());
    } else {
        assert(changed.drop_last() =~= next.drop_last().update(j, entry));
        lemma_total_update(next.drop_last(), j, entry);
    }
}

/// What one more row adds to a sum of counts.
proof fn lemma_sum_push<const N: usize>(rows: Seq<Row<N>>, row: Row<N>, leaving: bool, x: Seq<u64>)
    ensures
        rows_sum(rows.push(row), leaving, x) == rows_sum(rows, leaving, x) + row_sum(row, leaving, x),
{
    assert(rows.push(row).drop_last() =~= rows);
}

/// What another row in the place of one changes in a sum of counts.
proof fn lemma_sum_update<const N: usize>(rows: Seq<Row<N>>, i: int, row: Row<N>, leaving: bool, x: Seq<u64>)
    requires
        0 <= i < rows.len(),
    ensures
        rows_sum(rows.update(i, row), leaving, x) + row_sum(rows[i], leaving, x) == rows_sum(rows, leaving, x)
            + row_sum(row, leaving, x),
    decreases rows.len(),
{
    let changed = rows.update(i, row);
    if i == rows.len() - 1 {
        assert(changed.drop_last() =~= rows.drop_last());
    } else {
        assert(changed.drop_last() =~= rows.drop_last().update(i, row));
        lemma_sum_update(rows.drop_last(), i, row, leaving, x);
    }
}

/// The counts of the steps that leave a context add up to the sum of the
/// counts of its row, and to nothing where it has no row.
pub proof fn lemma_sum_leaving<const N: usize>(rows: Seq<Row<N>>, a: Seq<u64>)
    requires
        wf_rows(rows),
    ensures
        forall|i: int|
            0 <= i < rows.len() && (#[trigger] rows[i]).current@ == a ==> rows_sum(rows, true, a) == next_total(
                rows[i].next@,
            ),
        (forall|i: int| 0 <= i < rows.len() ==> (#[trigger] rows[i]).current@ != a) ==> rows_sum(rows, true, a)
            == 0,
    decreases rows.len(),
{
    if rows.len() > 0 {
        let shorter = rows.drop_last();
        assert(wf_rows(shorter)) by {
            assert forall|i: int, j: int| 0 <= i < j < shorter.len() implies (#[trigger] shorter[i]).current@ != (
            #[trigger] shorter[j]).current@ by {
                assert(shorter[i] == rows[i] && shorter[j] == rows[j]);
            }
            assert forall|i: int| 0 <= i < shorter.len() implies (#[trigger] shorter[i]).next.len() > 0
                && wf_next(shorter[i].next@) by {
                assert(shorter[i] == rows[i]);
            }
        }
        lemma_sum_leaving(shorter, a);
        assert forall|i: int| 0 <= i < rows.len() && (#[trigger] rows[i]).current@ == a implies rows_sum(
            rows,
            true,
            a,
        ) == next_total(rows[i].next@) by {
            if i < shorter.len() {
                assert(shorter[i] == rows[i]);
                assert(rows.last().current@ != a);
            } else {
                assert forall|k: int| 0 <= k < shorter.len() implies (#[trigger] shorter[k]).current@ != a by {
                    assert(shorter[k] == rows[k]);
                }
            }
        }
        if forall|i: int| 0 <= i < rows.len() ==> (#[trigger] rows[i]).current@ != a {
            assert forall|k: int| 0 <= k < shorter.len() implies (#[trigger] shorter[k]).current@ != a by {
                assert(shorter[k] == rows[k]);
            }
        }
    }
}

/// No successor is listed twice and every count is at least one.
pub open spec fn wf_next<const N: usize>(next: Seq<(Ngram<N>, u64)>) -> bool {
    &&& forall|i: int, j: int| 0 <= i < j < next.len() ==> (#[trigger] next[i]).0@ != (#[trigger] next[j]).0@
    &&& forall|i: int| 0 <= i < next.len() ==> (#[trigger] next[i]).1 >= 1
}

/// No context has two rows, every row lists a successor, none lists one
/// twice, and every count is at least one.
pub open spec fn wf_rows<const N: usize>(rows: Seq<Row<N>>) -> bool {
    &&& forall|i: int, j: int|
        0 <= i < j < rows.len() ==> (#[trigger] rows[i]).current@ != (#[trigger] rows[j]).current@
    &&& forall|i: int| 0 <= i < rows.len() ==> (#[trigger] rows[i]).next.len() > 0 && wf_next(rows[i].next@)
}

/// A successor that is not listed counts zero.
proof fn lemma_next_absent<const N: usize>(next: Seq<(Ngram<N>, u64)>, b: Seq<u64>)
    requires
        forall|j: int| 0 <= j < next.len() ==> (#[trigger] next[j]).0@ != b,
    ensures
        next_count(next, b) == 0,
    decreases next.len(),
{
    if next.len() > 0 {
        lemma_next_absent(next.drop_last(), b);
    }
}

/// A successor that is listed counts what the list holds for it.
proof fn lemma_next_present<const N: usize>(next: Seq<(Ngram<N>, u64)>, j: int)
    requires
        wf_next(next),
        0 <= j < next.len(),
    ensures
        next_count(next, next[j].0@) == next[j].1,
    decreases next.len(),
{
    let shorter = next.drop_last();
    if j == next.len() - 1 {
        lemma_next_absent(shorter, next[j].0@);
    } else {
        assert(shorter[j] == next[j]);
        lemma_next_present(shorter, j);
    }
}

/// What one more entry at the end of a list of successors adds to a
/// count.
proof fn lemma_next_push<const N: usize>(next: Seq<(Ngram<N>, u64)>, entry: (Ngram<N>, u64), b: Seq<u64>)
    ensures
        next_count(next.push(entry), b) == next_count(next, b) + if entry.0@ == b {
            entry.1 as nat
        } else {
            0nat
        },
{
    assert(next.push(entry).drop_last() =~= next);
}

/// What another entry in the place of one changes in a count.
proof fn lemma_next_update<const N: usize>(
    next: Seq<(Ngram<N>, u64)>,
    j: int,
    entry: (Ngram<N>, u64),
    b: Seq<u64>,
)
    requires
        0 <= j < next.len(),
    ensures
        next_count(next.update(j, entry), b) + (if next[j].0@ == b {
            next[j].1 as nat
        } else {
            0nat
        }) == next_count(next, b) + if entry.0@ == b {
            entry.1 as nat
        } else {
            0nat
        },
    decreases next.len(),
{
    let changed = next.update(j, entry);
    if j == next.len() - 1 {
        assert(changed.drop_last() =~= next.drop_last());
    } else {
        assert(changed.drop_last() =~= next.drop_last().update(j, entry));
        lemma_next_update(next.drop_last(), j, entry, b);
    }
}

/// A step from a context without a row counts zero.
proof fn lemma_rows_absent<const N: usize>(rows: Seq<Row<N>>, a: Seq<u64>, b: Seq<u64>)
    requires
        forall|i: int| 0 <= i < rows.len() ==> (#[trigger] rows[i]).current@ != a,
    ensures
        rows_count(rows, a, b) == 0,
    decreases rows.len(),
{
    if rows.len() > 0 {
        lemma_rows_absent(rows.drop_last(), a, b);
    }
}

/// A step from a context counts what the row of the context holds for
/// it.
proof fn lemma_rows_present<const N: usize>(rows: Seq<Row<N>>, i: int, b: Seq<u64>)
    requires
        wf_rows(rows),
        0 <= i < rows.len(),
    ensures
        rows_count(rows, rows[i].current@, b) == next_count(rows[i].next@, b),
    decreases rows.len(),
{
    let shorter = rows.drop_last();
    if i == rows.len() - 1 {
        lemma_rows_absent(shorter, rows[i].current@, b);
    } else {
        assert(shorter[i] == rows[i]);
        lemma_rows_present(shorter, i, b);
    }
}

/// What one more row adds to a count.
proof fn lemma_rows_push<const N: usize>(rows: Seq<Row<N>>, row: Row<N>, a: Seq<u64>, b: Seq<u64>)
    ensures
        rows_count(rows.push(row), a, b) == rows_count(rows, a, b) + row_count(row, a, b),
{
    assert(rows.push(row).drop_last() =~= rows);
}

/// What another row in the place of one changes in a count.
proof fn lemma_rows_update<const N: usize>(rows: Seq<Row<N>>, i: int, row: Row<N>, a: Seq<u64>, b: Seq<u64>)
    requires
        0 <= i < rows.len(),
    ensures
        rows_count(rows.update(i, row), a, b) + row_count(rows[i], a, b) == rows_count(rows, a, b)
            + row_count(row, a, b),
    decreases rows.len(),
{
    let changed = rows.update(i, row);
    if i == rows.len() - 1 {
        assert(changed.drop_last() =~= rows.drop_last());
    } else {
        assert(changed.drop_last() =~= rows.drop_last().update(i, row));
        lemma_rows_update(rows.drop_last(), i, row, a, b);
    }
}

/// The hashes of the contexts of the rows, each at the place of its row.
pub open spec fn current_hashes<const N: usize>(rows: Seq<Row<N>>) -> Seq<u64> {
    Seq::new(rows.len(), |i: int| hash_of_tokens(rows[i].current@))
}

/// The hashes of the successors of a list, each at the place of its
/// successor.
pub open spec fn next_hashes<const N: usize>(next: Seq<(Ngram<N>, u64)>) -> Seq<u64> {
    Seq::new(next.len(), |j: int| hash_of_tokens(next[j].0@))
}

/// What finds a row among the rows of a table, and a successor among the
/// successors of a row, without a search through all of them.
#[derive(Debug)]
pub struct Lookup {
    pub(crate) by_current: Index,
    pub(crate) by_next: Vec<Index>,
}

impl Lookup {
    /// Every row of `rows` and every successor of each row is found at
    /// its place.
    pub open(crate) spec fn finds<const N: usize>(self, rows: Seq<Row<N>>) -> bool {
        &&& self.by_current.indexes(current_hashes(rows))
        &&& self.by_next@.len() == rows.len()
        &&& forall|i: int|
            0 <= i < rows.len() ==> (#[trigger] self.by_next@[i]).indexes(next_hashes(rows[i].next@))
    }

    /// The lookup of no rows.
    fn new<const N: usize>() -> (lookup: Self)
        ensures
            lookup.finds(Seq::<Row<N>>::empty()),
    {
        let lookup = Lookup { by_current: Index::new(), by_next: Vec::new() };
        proof {
            assert(current_hashes(Seq::<Row<N>>::empty()) =~= Seq::<u64>::empty());
        }
        lookup
    }
}

/// The hash of an n-gram.
fn hash_ngram<const N: usize>(ngram: &Ngram<N>) -> (hash: u64)
    ensures
        hash == hash_of_tokens(ngram@),
{
    hash_tokens(array_as_slice(&ngram.0))
}

/// The first of `places` at which `rows` has the row of the context `a`.
fn find_row_among<const N: usize>(rows: &Vec<Row<N>>, places: &Vec<usize>, a: &Ngram<N>) -> (at: Option<usize>)
    requires
        forall|k: int| 0 <= k < places.len() ==> (#[trigger] places@[k]) < rows.len(),
    ensures
        match at {
            Some(i) => i < rows.len() && rows@[i as int].current@ == a@,
            None => forall|k: int| 0 <= k < places.len() ==> rows@[(#[trigger] places@[k]) as int].current@ != a@,
        },
{
    let mut k: usize = 0;
    while k < places.len()
        invariant
            k <= places.len(),
            forall|j: int| 0 <= j < places.len() ==> (#[trigger] places@[j]) < rows.len(),
            forall|j: int| 0 <= j < k ==> rows@[(#[trigger] places@[j]) as int].current@ != a@,
        decreases places.len() - k,
    {
        let place = places[k];
        if rows[place].current == *a {
            return Some(place);
        }
        k += 1;
    }
    None
}

/// The index of the row of the context `a`.
fn find_row<const N: usize>(rows: &Vec<Row<N>>, lookup: &Lookup, a: &Ngram<N>) -> (at: Option<usize>)
    requires
        lookup.finds(rows@),
    ensures
        match at {
            Some(i) => i < rows.len() && rows@[i as int].current@ == a@,
            None => forall|i: int| 0 <= i < rows.len() ==> (#[trigger] rows@[i]).current@ != a@,
        },
{
    let ghost hashes = current_hashes(rows@);
    let hash = hash_ngram(a);
    let found = match lookup.by_current.places(hash) {
        Some(places) => {
            proof {
                assert forall|k: int| 0 <= k < places.len() implies (#[trigger] places@[k]) < rows.len() by {
                    assert(lookup.by_current.bucket(hash)[k] < hashes.len());
                }
            }
            find_row_among(rows, places, a)
        },
        None => None,
    };
    proof {
        if found.is_none() {
            assert forall|i: int| 0 <= i < rows.len() implies (#[trigger] rows@[i]).current@ != a@ by {
                if rows@[i].current@ == a@ {
                    assert(hashes[i] == hash);
                    assert(lookup.by_current.bucket(hashes[i]).contains(i as usize));
                    let k = lookup.by_current.bucket(hash).index_of(i as usize);
                    assert(rows@[lookup.by_current.bucket(hash)[k] as int].current@ == a@);
                }
            }
        }
    }
    found
}

/// The first of `places` at which `next` lists the successor `b`.
fn find_next_among<const N: usize>(next: &Vec<(Ngram<N>, u64)>, places: &Vec<usize>, b: &Ngram<N>) -> (at:
    Option<usize>)
    requires
        forall|k: int| 0 <= k < places.len() ==> (#[trigger] places@[k]) < next.len(),
    ensures
        match at {
            Some(j) => j < next.len() && next@[j as int].0@ == b@,
            None => forall|k: int| 0 <= k < places.len() ==> next@[(#[trigger] places@[k]) as int].0@ != b@,
        },
{
    let mut k: usize = 0;
    while k < places.len()
        invariant
            k <= places.len(),
            forall|j: int| 0 <= j < places.len() ==> (#[trigger] places@[j]) < next.len(),
            forall|j: int| 0 <= j < k ==> next@[(#[trigger] places@[j]) as int].0@ != b@,
        decreases places.len() - k,
    {
        let place = places[k];
        if next[place].0 == *b {
            return Some(place);
        }
        k += 1;
    }
    None
}

/// The index of the successor `b` in a list of successors.
fn find_next<const N: usize>(next: &Vec<(Ngram<N>, u64)>, index: &Index, b: &Ngram<N>) -> (at: Option<usize>)
    requires
        index.indexes(next_hashes(next@)),
    ensures
        match at {
            Some(j) => j < next.len() && next@[j as int].0@ == b@,
            None => forall|j: int| 0 <= j < next.len() ==> (#[trigger] next@[j]).0@ != b@,
        },
{
    let ghost hashes = next_hashes(next@);
    let hash = hash_ngram(b);
    let found = match index.places(hash) {
        Some(places) => {
            proof {
                assert forall|k: int| 0 <= k < places.len() implies (#[trigger] places@[k]) < next.len() by {
                    assert(index.bucket(hash)[k] < hashes.len());
                }
            }
            find_next_among(next, places, b)
        },
        None => None,
    };
    proof {
        if found.is_none() {
            assert forall|j: int| 0 <= j < next.len() implies (#[trigger] next@[j]).0@ != b@ by {
                if next@[j].0@ == b@ {
                    assert(hashes[j] == hash);
                    assert(index.bucket(hashes[j]).contains(j as usize));
                    let k = index.bucket(hash).index_of(j as usize);
                    assert(next@[index.bucket(hash)[k] as int].0@ == b@);
                }
            }
        }
    }
    found
}

/// What a count becomes when the step from `a` to `b` is seen `weight`
/// times more.
pub open spec fn bumped(a: Seq<u64>, b: Seq<u64>, weight: nat, x: Seq<u64>, y: Seq<u64>) -> nat {
    if x == a && y == b {
        weight
    } else {
        0
    }
}

/// Counts `weight` more steps from `a` to `b`, unless the count would no
/// longer fit; the rows are then left as they are.
fn add_pair<const N: usize>(
    rows: &mut Vec<Row<N>>,
    lookup: &mut Lookup,
    a: Ngram<N>,
    b: Ngram<N>,
    weight: u64,
) -> (done: bool)
    requires
        wf_rows(old(rows)@),
        old(lookup).finds(old(rows)@),
        weight >= 1,
    ensures
        wf_rows(final(rows)@),
        final(lookup).finds(final(rows)@),
        done == (rows_count(old(rows)@, a@, b@) + weight <= u64::MAX),
        done ==> forall|x: Seq<u64>, y: Seq<u64>| #[trigger]
            rows_count(final(rows)@, x, y) == rows_count(old(rows)@, x, y) + bumped(a@, b@, weight as nat, x, y),
        done ==> forall|leaving: bool, x: Seq<u64>| #[trigger]
            rows_sum(final(rows)@, leaving, x) == rows_sum(old(rows)@, leaving, x) + touched(
                a@,
                b@,
                weight as nat,
                leaving,
                x,
            ),
        !done ==> final(rows)@ == old(rows)@,
{
    let ghost before = rows@;
    let ghost lookup_before = *lookup;
    match find_row(rows, lookup, &a) {
        None => {
            let mut next: Vec<(Ngram<N>, u64)> = Vec::new();
            next.push((b, weight));
            let row = Row { current: a, next };
            let mut index = Index::new();
            let ghost fresh = index;
            let hash_a = hash_ngram(&a);
            let hash_b = hash_ngram(&b);
            index.add(hash_b, 0);
            proof {
                lemma_rows_absent(before, a@, b@);
                assert forall|x: Seq<u64>, y: Seq<u64>| #[trigger]
                    rows_count(before.push(row), x, y) == rows_count(before, x, y) + bumped(
                        a@,
                        b@,
                        weight as nat,
                        x,
                        y,
                    ) by {
                    lemma_rows_push(before, row, x, y);
                    lemma_next_push(Seq::<(Ngram<N>, u64)>::empty(), (b, weight), y);
                    assert(row.next@ =~= Seq::<(Ngram<N>, u64)>::empty().push((b, weight)));
                }
                assert forall|leaving: bool, x: Seq<u64>| #[trigger]
                    rows_sum(before.push(row), leaving, x) == rows_sum(before, leaving, x) + touched(
                        a@,
                        b@,
                        weight as nat,
                        leaving,
                        x,
                    ) by {
                    lemma_sum_push(before, row, leaving, x);
                    lemma_next_push(Seq::<(Ngram<N>, u64)>::empty(), (b, weight), x);
                    lemma_total_push(Seq::<(Ngram<N>, u64)>::empty(), (b, weight));
                    assert(row.next@ =~= Seq::<(Ngram<N>, u64)>::empty().push((b, weight)));
                }
                Index::lemma_add(fresh, index, Seq::empty(), hash_b);
                assert(next_hashes(row.next@) =~= Seq::<u64>::empty().push(hash_b));
            }
            lookup.by_current.add(hash_a, rows.len());
            lookup.by_next.push(index);
            rows.push(row);
            proof {
                assert(current_hashes(rows@) =~= current_hashes(before).push(hash_a));
                Index::lemma_add(lookup_before.by_current, lookup.by_current, current_hashes(before), hash_a);
                assert forall|i: int| 0 <= i < rows@.len() implies (#[trigger] lookup.by_next@[i]).indexes(
                    next_hashes(rows@[i].next@),
                ) by {
                    if i < before.len() {
                        assert(lookup.by_next@[i] == lookup_before.by_next@[i]);
                        assert(rows@[i] == before[i]);
                    }
                }
            }
            true
        },
        Some(i) => {
            let ghost old_row = before[i as int];
            let ghost old_index = lookup_before.by_next@[i as int];
            match find_next(&rows[i].next, &lookup.by_next[i], &b) {
                None => {
                    let hash_b = hash_ngram(&b);
                    let place = rows[i].next.len();
                    rows[i].next.push((b, weight));
                    lookup.by_next[i].add(hash_b, place);
                    proof {
                        let new_row = rows@[i as int];
                        assert(rows@ =~= before.update(i as int, new_row));
                        assert(new_row.next@ =~= old_row.next@.push((b, weight)));
                        lemma_rows_present(before, i as int, b@);
                        lemma_next_absent(old_row.next@, b@);
                        assert forall|x: Seq<u64>, y: Seq<u64>| #[trigger]
                            rows_count(rows@, x, y) == rows_count(before, x, y) + bumped(
                                a@,
                                b@,
                                weight as nat,
                                x,
                                y,
                            ) by {
                            lemma_rows_update(before, i as int, new_row, x, y);
                            lemma_next_push(old_row.next@, (b, weight), y);
                        }
                        assert forall|leaving: bool, x: Seq<u64>| #[trigger]
                            rows_sum(rows@, leaving, x) == rows_sum(before, leaving, x) + touched(
                                a@,
                                b@,
                                weight as nat,
                                leaving,
                                x,
                            ) by {
                            lemma_sum_update(before, i as int, new_row, leaving, x);
                            lemma_next_push(old_row.next@, (b, weight), x);
                            lemma_total_push(old_row.next@, (b, weight));
                        }
                        assert(current_hashes(rows@) =~= current_hashes(before));
                        assert(next_hashes(new_row.next@) =~= next_hashes(old_row.next@).push(hash_b));
                        Index::lemma_add(old_index, lookup.by_next@[i as int], next_hashes(old_row.next@), hash_b);
                        assert forall|k: int| 0 <= k < rows@.len() implies (#[trigger] lookup.by_next@[k]).indexes(
                            next_hashes(rows@[k].next@),
                        ) by {
                            if k != i {
                                assert(lookup.by_next@[k] == lookup_before.by_next@[k]);
                                assert(rows@[k] == before[k]);
                            }
                        }
                    }
                    true
                },
                Some(j) => {
                    let count = rows[i].next[j].1;
                    proof {
                        lemma_rows_present(before, i as int, b@);
                        lemma_next_present(old_row.next@, j as int);
                    }
                    if count > u64::MAX - weight {
                        return false;
                    }
                    rows[i].next[j].1 = count + weight;
                    proof {
                        let new_row = rows@[i as int];
                        let entry = (old_row.next@[j as int].0, (count + weight) as u64);
                        assert(rows@ =~= before.update(i as int, new_row));
                        assert(new_row.next@ =~= old_row.next@.update(j as int, entry));
                        assert forall|x: Seq<u64>, y: Seq<u64>| #[trigger]
                            rows_count(rows@, x, y) == rows_count(before, x, y) + bumped(
                                a@,
                                b@,
                                weight as nat,
                                x,
                                y,
                            ) by {
                            lemma_rows_update(before, i as int, new_row, x, y);
                            lemma_next_update(old_row.next@, j as int, entry, y);
                        }
                        assert forall|leaving: bool, x: Seq<u64>| #[trigger]
                            rows_sum(rows@, leaving, x) == rows_sum(before, leaving, x) + touched(
                                a@,
                                b@,
                                weight as nat,
                                leaving,
                                x,
                            ) by {
                            lemma_sum_update(before, i as int, new_row, leaving, x);
                            lemma_next_update(old_row.next@, j as int, entry, x);
                            lemma_total_update(old_row.next@, j as int, entry);
                        }
                        assert(current_hashes(rows@) =~= current_hashes(before));
                        assert(next_hashes(new_row.next@) =~= next_hashes(old_row.next@));
                        assert forall|k: int| 0 <= k < rows@.len() implies (#[trigger] lookup.by_next@[k]).indexes(
                            next_hashes(rows@[k].next@),
                        ) by {
                            if k != i {
                                assert(rows@[k] == before[k]);
                            }
                        }
                    }
                    true
                },
            }
        },
    }
}

/// No more steps stand in the first windows than in all of them.
proof fn lemma_steps_take(windows: Seq<Seq<u64>>, k: int, a: Seq<u64>, b: Seq<u64>)
    requires
        0 <= k <= windows.len(),
    ensures
        steps(windows.take(k), a, b) <= steps(windows, a, b),
    decreases windows.len() - k,
{
    if k < windows.len() {
        lemma_steps_take(windows, k + 1, a, b);
        assert(windows.take(k + 1).drop_last() =~= windows.take(k));
    } else {
        assert(windows.take(k) =~= windows);
    }
}

/// No more steps stand in the first sentences than in all of them.
proof fn lemma_corpus_take(sentences: Seq<Sentence>, k: int, n: nat, a: Seq<u64>, b: Seq<u64>)
    requires
        0 <= k <= sentences.len(),
    ensures
        corpus_steps(sentences.take(k), n, a, b) <= corpus_steps(sentences, n, a, b),
    decreases sentences.len() - k,
{
    if k < sentences.len() {
        lemma_corpus_take(sentences, k + 1, n, a, b);
        assert(sentences.take(k + 1).drop_last() =~= sentences.take(k));
    } else {
        assert(sentences.take(k) =~= sentences);
    }
}

/// No more steps stand in the first corpora than in all of them.
proof fn lemma_dataset_take(corpora: Seq<Corpus>, k: int, n: nat, a: Seq<u64>, b: Seq<u64>)
    requires
        0 <= k <= corpora.len(),
    ensures
        dataset_steps(corpora.take(k), n, a, b) <= dataset_steps(corpora, n, a, b),
    decreases corpora.len() - k,
{
    if k < corpora.len() {
        lemma_dataset_take(corpora, k + 1, n, a, b);
        assert(corpora.take(k + 1).drop_last() =~= corpora.take(k));
        let weight = corpora[k].1 as nat;
        let inner = corpus_steps(corpora[k].0, n, a, b);
        assert(weight * inner >= 0) by (nonlinear_arith)
            requires
                weight >= 0,
                inner >= 0,
        ;
    } else {
        assert(corpora.take(k) =~= corpora);
    }
}

/// A weight times a sum is the sum of the weight times each part.
proof fn lemma_scale_step(weight: nat, seen: nat, more: nat)
    ensures
        weight * (seen + more) == weight * seen + weight * more,
        weight * 1 == weight,
        weight * 0 == 0,
{
    assert(weight * (seen + more) == weight * seen + weight * more) by (nonlinear_arith);
}

/// A weight times the lesser of two numbers is no more than the weight
/// times the greater.
proof fn lemma_scale_order(weight: nat, fewer: nat, more: nat)
    requires
        fewer <= more,
    ensures
        weight * fewer <= weight * more,
{
    assert(weight * fewer <= weight * more) by (nonlinear_arith)
        requires
            fewer <= more,
    ;
}

/// Counts every step of the lifting of `sentence`, `weight` times each.
/// Stops at the first count that would no longer fit.
fn add_sentence<const N: usize>(
    rows: &mut Vec<Row<N>>,
    lookup: &mut Lookup,
    sentence: &Vec<u64>,
    weight: u64,
) -> (done: bool)
    requires
        wf_rows(old(rows)@),
        old(lookup).finds(old(rows)@),
        weight >= 1,
    ensures
        wf_rows(final(rows)@),
        final(lookup).finds(final(rows)@),
        done ==> forall|x: Seq<u64>, y: Seq<u64>| #[trigger]
            rows_count(final(rows)@, x, y) == rows_count(old(rows)@, x, y) + weight * steps(
                lift(sentence@, N as nat),
                x,
                y,
            ),
        done ==> forall|leaving: bool, x: Seq<u64>| #[trigger]
            rows_sum(final(rows)@, leaving, x) == rows_sum(old(rows)@, leaving, x) + weight * passes(
                lift(sentence@, N as nat),
                leaving,
                x,
            ),
        !done ==> exists|x: Seq<u64>, y: Seq<u64>| #[trigger]
            rows_count(old(rows)@, x, y) + weight * steps(lift(sentence@, N as nat), x, y) > u64::MAX,
{
    let ghost before = rows@;
    let ghost windows = lift(sentence@, N as nat);
    let total: u128 = sentence.len() as u128 + N as u128;
    let mut previous: Ngram<N> = Ngram::window(sentence.as_slice(), 0);
    let mut i: u128 = 1;
    proof {
        assert forall|x: Seq<u64>, y: Seq<u64>| #[trigger]
            rows_count(rows@, x, y) == rows_count(before, x, y) + weight * steps(windows.take(1), x, y) by {
            lemma_scale_step(weight as nat, 0, 0);
        }
        assert forall|leaving: bool, x: Seq<u64>| #[trigger]
            rows_sum(rows@, leaving, x) == rows_sum(before, leaving, x) + weight * passes(
                windows.take(1),
                leaving,
                x,
            ) by {
            lemma_scale_step(weight as nat, 0, 0);
        }
    }
    while i <= total
        invariant
            1 <= i <= total + 1,
            total == sentence.len() + N,
            weight >= 1,
            before == old(rows)@,
            windows == lift(sentence@, N as nat),
            previous@ == window_at(sentence@, N as nat, i - 1),
            wf_rows(rows@),
            lookup.finds(rows@),
            forall|x: Seq<u64>, y: Seq<u64>| #[trigger]
                rows_count(rows@, x, y) == rows_count(before, x, y) + weight * steps(
                    windows.take(i as int),
                    x,
                    y,
                ),
            forall|leaving: bool, x: Seq<u64>| #[trigger]
                rows_sum(rows@, leaving, x) == rows_sum(before, leaving, x) + weight * passes(
                    windows.take(i as int),
                    leaving,
                    x,
                ),
        decreases total + 1 - i,
    {
        let current: Ngram<N> = Ngram::window(sentence.as_slice(), i);
        let ghost earlier = rows@;
        let ghost a = previous@;
        let ghost b = current@;
        proof {
            assert(windows.take(i + 1).drop_last() =~= windows.take(i as int));
            assert(windows.take(i + 1)[i - 1] == a);
            assert(windows.take(i + 1).last() == b);
        }
        let added = add_pair(rows, lookup, previous, current, weight);
        if !added {
            proof {
                let seen = steps(windows.take(i as int), a, b);
                let after = steps(windows.take(i + 1), a, b);
                let all = steps(windows, a, b);
                assert(after == seen + 1);
                lemma_steps_take(windows, i + 1, a, b);
                lemma_scale_step(weight as nat, seen, 1);
                lemma_scale_order(weight as nat, after, all);
                assert(rows_count(earlier, a, b) == rows_count(before, a, b) + weight * seen);
                assert(rows_count(before, a, b) + weight * steps(lift(sentence@, N as nat), a, b) > u64::MAX);
            }
            return false;
        }
        proof {
            assert forall|x: Seq<u64>, y: Seq<u64>| #[trigger]
                rows_count(rows@, x, y) == rows_count(before, x, y) + weight * steps(
                    windows.take(i + 1),
                    x,
                    y,
                ) by {
                let seen = steps(windows.take(i as int), x, y);
                assert(rows_count(earlier, x, y) == rows_count(before, x, y) + weight * seen);
                assert(rows_count(rows@, x, y) == rows_count(earlier, x, y) + bumped(a, b, weight as nat, x, y));
                if x == a && y == b {
                    lemma_scale_step(weight as nat, seen, 1);
                } else {
                    lemma_scale_step(weight as nat, seen, 0);
                }
            }
        }
        proof {
            assert forall|leaving: bool, x: Seq<u64>| #[trigger]
                rows_sum(rows@, leaving, x) == rows_sum(before, leaving, x) + weight * passes(
                    windows.take(i + 1),
                    leaving,
                    x,
                ) by {
                let seen = passes(windows.take(i as int), leaving, x);
                assert(rows_sum(earlier, leaving, x) == rows_sum(before, leaving, x) + weight * seen);
                assert(rows_sum(rows@, leaving, x) == rows_sum(earlier, leaving, x) + touched(
                    a,
                    b,
                    weight as nat,
                    leaving,
                    x,
                ));
                if (if leaving {
                    a
                } else {
                    b
                }) == x {
                    lemma_scale_step(weight as nat, seen, 1);
                } else {
                    lemma_scale_step(weight as nat, seen, 0);
                }
            }
        }
        previous = current;
        i += 1;
    }
    proof {
        assert(windows.take(i as int) =~= windows);
    }
    true
}

/// Counts every step of the liftings of `sentences`, `weight` times
/// each. Stops at the first count that would no longer fit.
fn add_corpus<const N: usize>(
    rows: &mut Vec<Row<N>>,
    lookup: &mut Lookup,
    sentences: &Vec<Vec<u64>>,
    weight: u64,
) -> (done: bool)
    requires
        wf_rows(old(rows)@),
        old(lookup).finds(old(rows)@),
        weight >= 1,
    ensures
        wf_rows(final(rows)@),
        final(lookup).finds(final(rows)@),
        done ==> forall|x: Seq<u64>, y: Seq<u64>| #[trigger]
            rows_count(final(rows)@, x, y) == rows_count(old(rows)@, x, y) + weight * corpus_steps(
                sentences_of(sentences@),
                N as nat,
                x,
                y,
            ),
        done ==> forall|leaving: bool, x: Seq<u64>| #[trigger]
            rows_sum(final(rows)@, leaving, x) == rows_sum(old(rows)@, leaving, x) + weight * corpus_passes(
                sentences_of(sentences@),
                N as nat,
                leaving,
                x,
            ),
        !done ==> exists|x: Seq<u64>, y: Seq<u64>| #[trigger]
            rows_count(old(rows)@, x, y) + weight * corpus_steps(sentences_of(sentences@), N as nat, x, y)
                > u64::MAX,
{
    let ghost before = rows@;
    let ghost all = sentences_of(sentences@);
    let mut j: usize = 0;
    proof {
        assert(all.take(0) =~= Seq::<Sentence>::empty());
        assert forall|x: Seq<u64>, y: Seq<u64>| #[trigger]
            rows_count(rows@, x, y) == rows_count(before, x, y) + weight * corpus_steps(
                all.take(0),
                N as nat,
                x,
                y,
            ) by {
            lemma_scale_step(weight as nat, 0, 0);
        }
        assert forall|leaving: bool, x: Seq<u64>| #[trigger]
            rows_sum(rows@, leaving, x) == rows_sum(before, leaving, x) + weight * corpus_passes(
                all.take(0),
                N as nat,
                leaving,
                x,
            ) by {
            lemma_scale_step(weight as nat, 0, 0);
        }
    }
    while j < sentences.len()
        invariant
            j <= sentences.len(),
            weight >= 1,
            before == old(rows)@,
            all == sentences_of(sentences@),
            wf_rows(rows@),
            lookup.finds(rows@),
            forall|x: Seq<u64>, y: Seq<u64>| #[trigger]
                rows_count(rows@, x, y) == rows_count(before, x, y) + weight * corpus_steps(
                    all.take(j as int),
                    N as nat,
                    x,
                    y,
                ),
            forall|leaving: bool, x: Seq<u64>| #[trigger]
                rows_sum(rows@, leaving, x) == rows_sum(before, leaving, x) + weight * corpus_passes(
                    all.take(j as int),
                    N as nat,
                    leaving,
                    x,
                ),
        decreases sentences.len() - j,
    {
        let ghost earlier = rows@;
        let ghost sentence = sentences@[j as int]@;
        proof {
            assert(all.take(j + 1).drop_last() =~= all.take(j as int));
            assert(all.take(j + 1).last() == sentence);
        }
        let added = add_sentence(rows, lookup, &sentences[j], weight);
        if !added {
            proof {
                let (x, y) = choose|x: Seq<u64>, y: Seq<u64>| #[trigger]
                    rows_count(earlier, x, y) + weight * steps(lift(sentence, N as nat), x, y) > u64::MAX;
                let seen = corpus_steps(all.take(j as int), N as nat, x, y);
                let here = steps(lift(sentence, N as nat), x, y);
                let after = corpus_steps(all.take(j + 1), N as nat, x, y);
                let whole = corpus_steps(all, N as nat, x, y);
                assert(after == seen + here);
                assert(rows_count(earlier, x, y) == rows_count(before, x, y) + weight * seen);
                lemma_corpus_take(all, j + 1, N as nat, x, y);
                lemma_scale_step(weight as nat, seen, here);
                lemma_scale_order(weight as nat, after, whole);
                assert(rows_count(before, x, y) + weight * corpus_steps(
                    sentences_of(sentences@),
                    N as nat,
                    x,
                    y,
                ) > u64::MAX);
            }
            return false;
        }
        proof {
            assert forall|x: Seq<u64>, y: Seq<u64>| #[trigger]
                rows_count(rows@, x, y) == rows_count(before, x, y) + weight * corpus_steps(
                    all.take(j + 1),
                    N as nat,
                    x,
                    y,
                ) by {
                let seen = corpus_steps(all.take(j as int), N as nat, x, y);
                let here = steps(lift(sentence, N as nat), x, y);
                assert(rows_count(earlier, x, y) == rows_count(before, x, y) + weight * seen);
                assert(rows_count(rows@, x, y) == rows_count(earlier, x, y) + weight * here);
                lemma_scale_step(weight as nat, seen, here);
            }
            assert forall|leaving: bool, x: Seq<u64>| #[trigger]
                rows_sum(rows@, leaving, x) == rows_sum(before, leaving, x) + weight * corpus_passes(
                    all.take(j + 1),
                    N as nat,
                    leaving,
                    x,
                ) by {
                let seen = corpus_passes(all.take(j as int), N as nat, leaving, x);
                let here = passes(lift(sentence, N as nat), leaving, x);
                assert(rows_sum(earlier, leaving, x) == rows_sum(before, leaving, x) + weight * seen);
                assert(rows_sum(rows@, leaving, x) == rows_sum(earlier, leaving, x) + weight * here);
                lemma_scale_step(weight as nat, seen, here);
            }
        }
        j += 1;
    }
    proof {
        assert(all.take(j as int) =~= all);
    }
    true
}

/// The rows of the table of order `N` over the corpora, or nothing where a
/// count does not fit.
fn build_rows<const N: usize>(parts: &[(TokenizedMessages, u64)]) -> (built: Option<(Vec<Row<N>>, Lookup)>)
    requires
        weighted(corpora_of(parts@)),
    ensures
        match built {
            Some((rows, lookup)) => {
                &&& wf_rows(rows@)
                &&& lookup.finds(rows@)
                &&& forall|x: Seq<u64>, y: Seq<u64>| #[trigger]
                    rows_count(rows@, x, y) == dataset_steps(corpora_of(parts@), N as nat, x, y)
                &&& forall|leaving: bool, x: Seq<u64>| #[trigger]
                    rows_sum(rows@, leaving, x) == dataset_passes(corpora_of(parts@), N as nat, leaving, x)
            },
            None => !counts_fit(corpora_of(parts@), N as nat),
        },
{
    let ghost corpora = corpora_of(parts@);
    let mut rows: Vec<Row<N>> = Vec::new();
    let mut lookup = Lookup::new::<N>();
    let mut k: usize = 0;
    proof {
        assert(corpora.take(0) =~= Seq::<Corpus>::empty());
        assert(rows@ =~= Seq::<Row<N>>::empty());
    }
    while k < parts.len()
        invariant
            k <= parts.len(),
            corpora == corpora_of(parts@),
            weighted(corpora),
            wf_rows(rows@),
            lookup.finds(rows@),
            forall|x: Seq<u64>, y: Seq<u64>| #[trigger]
                rows_count(rows@, x, y) == dataset_steps(corpora.take(k as int), N as nat, x, y),
            forall|leaving: bool, x: Seq<u64>| #[trigger]
                rows_sum(rows@, leaving, x) == dataset_passes(corpora.take(k as int), N as nat, leaving, x),
        decreases parts.len() - k,
    {
        let ghost earlier = rows@;
        let part = &parts[k];
        let weight = part.1;
        proof {
            assert(corpora.take(k + 1).drop_last() =~= corpora.take(k as int));
            assert(corpora.take(k + 1).last() == corpora[k as int]);
            assert(corpora[k as int].1 >= 1);
        }
        let added = add_corpus(&mut rows, &mut lookup, part.0.messages(), weight);
        if !added {
            proof {
                let sentences = corpora[k as int].0;
                let (x, y) = choose|x: Seq<u64>, y: Seq<u64>| #[trigger]
                    rows_count(earlier, x, y) + weight * corpus_steps(sentences, N as nat, x, y) > u64::MAX;
                lemma_dataset_take(corpora, k + 1, N as nat, x, y);
                assert(dataset_steps(corpora.take(k + 1), N as nat, x, y) == rows_count(earlier, x, y) + weight
                    * corpus_steps(sentences, N as nat, x, y));
                assert(dataset_steps(corpora, N as nat, x, y) > u64::MAX);
            }
            return None;
        }
        k += 1;
    }
    proof {
        assert(corpora.take(k as int) =~= corpora);
    }
    Some((rows, lookup))
}

/// A successor is listed exactly when its count is not zero.
pub proof fn lemma_listed_iff_counted<const N: usize>(next: Seq<(Ngram<N>, u64)>, b: Seq<u64>)
    requires
        wf_next(next),
    ensures
        next_count(next, b) > 0 <==> exists|j: int| 0 <= j < next.len() && (#[trigger] next[j]).0@ == b,
{
    if exists|j: int| 0 <= j < next.len() && (#[trigger] next[j]).0@ == b {
        let j = choose|j: int| 0 <= j < next.len() && (#[trigger] next[j]).0@ == b;
        lemma_next_present(next, j);
    } else {
        lemma_next_absent(next, b);
    }
}

/// `rows` lists the step from `a` to `b`.
pub open spec fn lists<const N: usize>(rows: Seq<Row<N>>, a: Seq<u64>, b: Seq<u64>) -> bool {
    exists|i: int, j: int|
        0 <= i < rows.len() && 0 <= j < rows[i].next@.len() && rows[i].current@ == a && (
        #[trigger] rows[i].next@[j]).0@ == b
}

/// A step counts more than zero exactly where it is listed: no count that
/// is kept is zero, and a step that is not kept counts zero.
pub proof fn lemma_counts_positive<const N: usize>(rows: Seq<Row<N>>, a: Seq<u64>, b: Seq<u64>)
    requires
        wf_rows(rows),
    ensures
        rows_count(rows, a, b) > 0 <==> lists(rows, a, b),
{
    if exists|i: int| 0 <= i < rows.len() && (#[trigger] rows[i]).current@ == a {
        let i = choose|i: int| 0 <= i < rows.len() && (#[trigger] rows[i]).current@ == a;
        lemma_rows_present(rows, i, b);
        lemma_listed_iff_counted(rows[i].next@, b);
        if lists(rows, a, b) {
            let (k, j) = choose|k: int, j: int|
                0 <= k < rows.len() && 0 <= j < rows[k].next@.len() && rows[k].current@ == a && (
                #[trigger] rows[k].next@[j]).0@ == b;
            assert(k == i);
            assert(rows[i].next@[j].0@ == b);
        }
        if next_count(rows[i].next@, b) > 0 {
            let j = choose|j: int| 0 <= j < rows[i].next@.len() && (#[trigger] rows[i].next@[j]).0@ == b;
            assert(rows[i].next@[j].0@ == b);
        }
    } else {
        lemma_rows_absent(rows, a, b);
    }
}

/// Every count of a table fits a `u64`.
pub proof fn lemma_count_fits<const N: usize>(rows: Seq<Row<N>>, a: Seq<u64>, b: Seq<u64>)
    requires
        wf_rows(rows),
    ensures
        rows_count(rows, a, b) <= u64::MAX,
{
    if exists|i: int| 0 <= i < rows.len() && (#[trigger] rows[i]).current@ == a {
        let i = choose|i: int| 0 <= i < rows.len() && (#[trigger] rows[i]).current@ == a;
        let next = rows[i].next@;
        lemma_rows_present(rows, i, b);
        if exists|j: int| 0 <= j < next.len() && (#[trigger] next[j]).0@ == b {
            let j = choose|j: int| 0 <= j < next.len() && (#[trigger] next[j]).0@ == b;
            lemma_next_present(next, j);
        } else {
            lemma_next_absent(next, b);
        }
    } else {
        lemma_rows_absent(rows, a, b);
    }
}

/// The counts of a list of successors add up to at least the number of
/// the successors: a context that was seen has a sum of counts above zero,
/// of which the count of each successor is a share.
pub proof fn lemma_total_positive<const N: usize>(next: Seq<(Ngram<N>, u64)>)
    requires
        wf_next(next),
    ensures
        next_total(next) >= next.len(),
        forall|j: int| 0 <= j < next.len() ==> (#[trigger] next[j]).1 <= next_total(next),
    decreases next.len(),
{
    if next.len() > 0 {
        let shorter = next.drop_last();
        lemma_total_positive(shorter);
        assert forall|j: int| 0 <= j < next.len() implies (#[trigger] next[j]).1 <= next_total(next) by {
            if j < shorter.len() {
                assert(shorter[j] == next[j]);
            }
        }
    }
}

/// A window without padding: it holds neither the start nor the end token.
pub open spec fn plain(window: Seq<u64>) -> bool {
    !has_start(window) && !has_end(window)
}

/// The number of successors without padding in a list of successors.
pub open spec fn plain_next<const N: usize>(next: Seq<(Ngram<N>, u64)>) -> nat
    decreases next.len(),
{
    if next.len() == 0 {
        0
    } else {
        plain_next(next.drop_last()) + if plain(next.last().0@) {
            1nat
        } else {
            0nat
        }
    }
}

/// The number of paths that a row counts for: its successors without
/// padding, where its context is without padding, and none else.
pub open spec fn row_paths<const N: usize>(row: Row<N>) -> nat {
    if plain(row.current@) {
        plain_next(row.next@)
    } else {
        0
    }
}

/// The number of paths of a list of rows.
pub open spec fn paths<const N: usize>(rows: Seq<Row<N>>) -> nat
    decreases rows.len(),
{
    if rows.len() == 0 {
        0
    } else {
        paths(rows.drop_last()) + row_paths(rows.last())
    }
}

/// The number of rows among the first `upto` that have more paths than the
/// `total` paths shared out evenly over `size` rows would give each.
pub open spec fn above_average<const N: usize>(rows: Seq<Row<N>>, upto: int, total: nat, size: nat) -> nat
    decreases upto,
{
    if upto <= 0 {
        0
    } else {
        above_average(rows, upto - 1, total, size) + if plain(rows[upto - 1].current@) && row_paths(
            rows[upto - 1],
        ) * size > total {
            1nat
        } else {
            0nat
        }
    }
}

/// No more successors are without padding than there are successors.
proof fn lemma_plain_next_bound<const N: usize>(next: Seq<(Ngram<N>, u64)>)
    ensures
        plain_next(next) <= next.len(),
    decreases next.len(),
{
    if next.len() > 0 {
        lemma_plain_next_bound(next.drop_last());
    }
}

/// The counts of a list add up to no more than as many times the
/// greatest count.
proof fn lemma_next_total_bound<const N: usize>(next: Seq<(Ngram<N>, u64)>)
    ensures
        next_total(next) <= next.len() * u64::MAX,
    decreases next.len(),
{
    if next.len() > 0 {
        lemma_next_total_bound(next.drop_last());
        assert((next.len() - 1) * u64::MAX + u64::MAX == next.len() * u64::MAX) by (nonlinear_arith);
    }
}

/// The paths of the rows are no more than as many times the greatest
/// number of successors of a row.
proof fn lemma_paths_bound<const N: usize>(rows: Seq<Row<N>>)
    ensures
        paths(rows) <= rows.len() * usize::MAX,
    decreases rows.len(),
{
    if rows.len() > 0 {
        lemma_paths_bound(rows.drop_last());
        lemma_plain_next_bound(rows.last().next@);
        assert(rows.last().next@.len() == rows.last().next.len());
        assert((rows.len() - 1) * usize::MAX + usize::MAX == rows.len() * usize::MAX) by (nonlinear_arith);
    }
}

/// The number of successors without padding in a list of successors.
fn count_plain<const N: usize>(next: &Vec<(Ngram<N>, u64)>) -> (count: usize)
    ensures
        count == plain_next(next@),
{
    let mut count: usize = 0;
    let mut j: usize = 0;
    proof {
        assert(next@.take(0) =~= Seq::<(Ngram<N>, u64)>::empty());
    }
    while j < next.len()
        invariant
            j <= next.len(),
            count <= j,
            count == plain_next(next@.take(j as int)),
        decreases next.len() - j,
    {
        proof {
            assert(next@.take(j + 1).drop_last() =~= next@.take(j as int));
            assert(next@.take(j + 1).last() == next@[j as int]);
        }
        if !next[j].0.contains_start() && !next[j].0.contains_end() {
            count += 1;
        }
        j += 1;
    }
    proof {
        assert(next@.take(j as int) =~= next@);
    }
    count
}

/// The counted steps of one order: for each context, the n-grams seen
/// directly behind it, each with the number of times it was seen there.
#[derive(Debug)]
pub struct Table<const N: usize> {
    pub(crate) rows: Vec<Row<N>>,
    pub(crate) lookup: Lookup,
}

impl<const N: usize> Table<N> {
    /// No context has two rows, no row lists a successor twice, every
    /// count is at least one, and every context and successor is found at
    /// its place.
    #[verifier::type_invariant]
    pub open(crate) spec fn wf(self) -> bool {
        &&& wf_rows(self.rows@)
        &&& self.lookup.finds(self.rows@)
    }

    /// The rows, in the order in which their contexts were first seen.
    pub open(crate) spec fn content(self) -> Seq<Row<N>> {
        self.rows@
    }

    /// The count of the step from `a` to `b`; zero where it was never seen.
    pub open spec fn count(self, a: Seq<u64>, b: Seq<u64>) -> nat {
        rows_count(self.content(), a, b)
    }

    /// The sum of the counts of the steps that leave `x` (where `leaving`
    /// is set) or that reach `x` (where it is not).
    pub open spec fn sum(self, leaving: bool, x: Seq<u64>) -> nat {
        rows_sum(self.content(), leaving, x)
    }

    /// Whether any step from `a` was seen.
    pub open spec fn has_context(self, a: Seq<u64>) -> bool {
        exists|i: int| 0 <= i < self.content().len() && (#[trigger] self.content()[i]).current@ == a
    }

    /// A table without any step.
    pub fn new() -> (table: Self)
        ensures
            table.content() == Seq::<Row<N>>::empty(),
    {
        Table { rows: Vec::new(), lookup: Lookup::new::<N>() }
    }

    /// This table with `weight` more steps from `a` to `b`. Nothing is
    /// added where `weight` is zero or the count would no longer fit.
    pub fn with_steps(self, a: Ngram<N>, b: Ngram<N>, weight: u64) -> (grown: Self)
        ensures
            forall|x: Seq<u64>, y: Seq<u64>| #[trigger]
                grown.count(x, y) == self.count(x, y) + if weight >= 1 && self.count(a@, b@) + weight
                    <= u64::MAX {
                    bumped(a@, b@, weight as nat, x, y)
                } else {
                    0
                },
    {
        proof {
            use_type_invariant(&self);
        }
        let mut rows = self.rows;
        let mut lookup = self.lookup;
        if weight >= 1 {
            let _ = add_pair(&mut rows, &mut lookup, a, b, weight);
        }
        Table { rows, lookup }
    }

    /// The rows: one for each context, with its successors and their
    /// counts.
    pub fn rows(&self) -> (rows: &Vec<Row<N>>)
        ensures
            rows@ == self.content(),
            wf_rows(rows@),
    {
        proof {
            use_type_invariant(self);
        }
        &self.rows
    }

    /// The number of contexts.
    pub fn len(&self) -> (size: usize)
        ensures
            size == self.content().len(),
    {
        self.rows.len()
    }

    /// The successors of `a` with their counts, each successor once and
    /// each count at least one; nothing where no step from `a` was seen.
    pub fn successors(&self, a: &Ngram<N>) -> (listed: Option<&Vec<(Ngram<N>, u64)>>)
        ensures
            match listed {
                Some(next) => {
                    &&& self.has_context(a@)
                    &&& self.successors_spec(a@) == Some(next@)
                    &&& next.len() > 0
                    &&& wf_next(next@)
                    &&& forall|y: Seq<u64>| #[trigger] next_count(next@, y) == self.count(a@, y)
                },
                None => !self.has_context(a@) && forall|y: Seq<u64>| #[trigger] self.count(a@, y) == 0,
            },
    {
        proof {
            use_type_invariant(self);
        }
        match find_row(&self.rows, &self.lookup, a) {
            Some(i) => {
                proof {
                    assert(self.content()[i as int].current@ == a@);
                    let at = choose|at: int|
                        0 <= at < self.content().len() && (#[trigger] self.content()[at]).current@ == a@;
                    assert(at == i);
                    assert forall|y: Seq<u64>| #[trigger]
                        next_count(self.rows@[i as int].next@, y) == self.count(a@, y) by {
                        lemma_rows_present(self.rows@, i as int, y);
                    }
                }
                Some(&self.rows[i].next)
            },
            None => {
                proof {
                    assert forall|y: Seq<u64>| #[trigger] self.count(a@, y) == 0 by {
                        lemma_rows_absent(self.rows@, a@, y);
                    }
                }
                None
            },
        }
    }

    /// The count of the step from `a` to `b`; zero where it was never seen.
    pub fn count_of(&self, a: &Ngram<N>, b: &Ngram<N>) -> (count: u64)
        ensures
            count == self.count(a@, b@),
    {
        proof {
            use_type_invariant(self);
        }
        match find_row(&self.rows, &self.lookup, a) {
            Some(i) => {
                let next = &self.rows[i].next;
                proof {
                    lemma_rows_present(self.rows@, i as int, b@);
                }
                match find_next(next, &self.lookup.by_next[i], b) {
                    Some(j) => {
                        proof {
                            lemma_next_present(next@, j as int);
                        }
                        next[j].1
                    },
                    None => {
                        proof {
                            lemma_next_absent(next@, b@);
                        }
                        0
                    },
                }
            },
            None => {
                proof {
                    lemma_rows_absent(self.rows@, a@, b@);
                }
                0
            },
        }
    }

    /// The sum of the counts of all steps from `a`.
    pub fn total_of(&self, a: &Ngram<N>) -> (total: u128)
        ensures
            total == match self.successors_spec(a@) {
                Some(next) => next_total(next),
                None => 0,
            },
            total > 0 <==> self.has_context(a@),
            total == self.sum(true, a@),
    {
        proof {
            use_type_invariant(self);
        }
        match find_row(&self.rows, &self.lookup, a) {
            Some(i) => {
                let next = &self.rows[i].next;
                let mut total: u128 = 0;
                let mut j: usize = 0;
                proof {
                    assert(next@.take(0) =~= Seq::<(Ngram<N>, u64)>::empty());
                    assert(self.successors_spec(a@) == Some(next@)) by {
                        let at = choose|at: int|
                            0 <= at < self.content().len() && (#[trigger] self.content()[at]).current@ == a@;
                        assert(at == i);
                    }
                }
                while j < next.len()
                    invariant
                        j <= next.len(),
                        total == next_total(next@.take(j as int)),
                    decreases next.len() - j,
                {
                    proof {
                        assert(next@.take(j + 1).drop_last() =~= next@.take(j as int));
                        assert(next@.take(j + 1).last() == next@[j as int]);
                        lemma_next_total_bound(next@.take(j as int));
                        assert(j * u64::MAX + u64::MAX <= usize::MAX * u64::MAX + u64::MAX) by (nonlinear_arith)
                            requires
                                j <= usize::MAX,
                        ;
                        assert(usize::MAX * u64::MAX + u64::MAX <= u128::MAX) by (nonlinear_arith)
                            requires
                                usize::MAX <= u64::MAX,
                                u64::MAX == 0xffff_ffff_ffff_ffff,
                                u128::MAX == 0xffff_ffff_ffff_ffff_ffff_ffff_ffff_ffff,
                        ;
                    }
                    total += next[j].1 as u128;
                    j += 1;
                }
                proof {
                    assert(next@.take(j as int) =~= next@);
                    lemma_total_positive(next@);
                    assert(self.content()[i as int].current@ == a@);
                    lemma_sum_leaving(self.rows@, a@);
                }
                total
            },
            None => {
                proof {
                    lemma_sum_leaving(self.rows@, a@);
                }
                0
            },
        }
    }

    /// The successors of `a` with their counts; nothing where no step from
    /// `a` was seen.
    pub open spec fn successors_spec(self, a: Seq<u64>) -> Option<Seq<(Ngram<N>, u64)>> {
        if self.has_context(a) {
            let at = choose|at: int|
                0 <= at < self.content().len() && (#[trigger] self.content()[at]).current@ == a;
            Some(self.content()[at].next@)
        } else {
            None
        }
    }

    /// The number of paths: the steps between windows without padding,
    /// each counted once.
    pub fn complexity(&self) -> (total: u128)
        ensures
            total == paths(self.content()),
    {
        let mut total: u128 = 0;
        let mut i: usize = 0;
        proof {
            assert(self.rows@.take(0) =~= Seq::<Row<N>>::empty());
        }
        while i < self.rows.len()
            invariant
                i <= self.rows.len(),
                total == paths(self.rows@.take(i as int)),
            decreases self.rows.len() - i,
        {
            let row = &self.rows[i];
            proof {
                let seen = self.rows@.take(i as int);
                assert(self.rows@.take(i + 1).drop_last() =~= seen);
                assert(self.rows@.take(i + 1).last() == self.rows@[i as int]);
                lemma_paths_bound(seen);
                lemma_plain_next_bound(row.next@);
                assert(i * usize::MAX + usize::MAX <= u128::MAX) by (nonlinear_arith)
                    requires
                        i <= usize::MAX,
                        usize::MAX <= 0xffff_ffff_ffff_ffff,
                        u128::MAX == 0xffff_ffff_ffff_ffff_ffff_ffff_ffff_ffff,
                ;
            }
            if !row.current.contains_start() && !row.current.contains_end() {
                total += count_plain(&row.next) as u128;
            }
            i += 1;
        }
        proof {
            assert(self.rows@.take(i as int) =~= self.rows@);
        }
        total
    }

    /// The number of contexts without padding that have more paths than the
    /// average context: more than the number of paths divided by the number
    /// of contexts.
    pub fn above_average(&self) -> (count: usize)
        ensures
            count == above_average(
                self.content(),
                self.content().len() as int,
                paths(self.content()),
                self.content().len(),
            ),
    {
        let total = self.complexity();
        let size = self.rows.len();
        let mut count: usize = 0;
        let mut i: usize = 0;
        while i < size
            invariant
                i <= size,
                size == self.rows.len(),
                count <= i,
                count == above_average(self.rows@, i as int, total as nat, size as nat),
            decreases size - i,
        {
            let row = &self.rows[i];
            if !row.current.contains_start() && !row.current.contains_end() {
                let found = count_plain(&row.next);
                proof {
                    assert(found * size <= usize::MAX * usize::MAX) by (nonlinear_arith)
                        requires
                            found <= usize::MAX,
                            size <= usize::MAX,
                    ;
                    assert(usize::MAX * usize::MAX <= u128::MAX) by (nonlinear_arith)
                        requires
                            usize::MAX <= 0xffff_ffff_ffff_ffff,
                            u128::MAX == 0xffff_ffff_ffff_ffff_ffff_ffff_ffff_ffff,
                    ;
                }
                if (found as u128) * (size as u128) > total {
                    count += 1;
                }
            }
            i += 1;
        }
        count
    }
}

/// Every count of every table that is asked for fits a `u64`.
pub open spec fn all_counts_fit(corpora: Seq<Corpus>, build_bigrams: bool, build_trigrams: bool) -> bool {
    &&& counts_fit(corpora, 1)
    &&& build_bigrams ==> counts_fit(corpora, 2)
    &&& build_trigrams ==> counts_fit(corpora, 3)
}

/// `table` holds the counts of order `N` over `corpora`: each step counts
/// as often as it stands in the liftings, by weight, and so the counts of
/// the steps that leave a window, and of those that reach it, add up to the
/// number of times the window takes part in such a step, by weight.
pub open spec fn counts<const N: usize>(table: Table<N>, corpora: Seq<Corpus>) -> bool {
    &&& forall|a: Seq<u64>, b: Seq<u64>| #[trigger] table.count(a, b) == dataset_steps(corpora, N as nat, a, b)
    &&& forall|leaving: bool, x: Seq<u64>| #[trigger]
        table.sum(leaving, x) == dataset_passes(corpora, N as nat, leaving, x)
}

/// The counted steps of a dataset: between single tokens always, between
/// pairs and triples of tokens where they were asked for.
#[derive(Debug)]
pub struct Transitions {
    pub(crate) unigrams: Table<1>,
    pub(crate) bigrams: Option<Table<2>>,
    pub(crate) trigrams: Option<Table<3>>,
}

impl Transitions {
    /// The table of steps between single tokens.
    pub open(crate) spec fn unigram_table(self) -> Table<1> {
        self.unigrams
    }

    /// The table of steps between pairs of tokens, where there is one.
    pub open(crate) spec fn bigram_table(self) -> Option<Table<2>> {
        self.bigrams
    }

    /// The table of steps between triples of tokens, where there is one.
    pub open(crate) spec fn trigram_table(self) -> Option<Table<3>> {
        self.trigrams
    }

    /// `self` holds the counts over `corpora`, with the tables that were
    /// asked for and no others.
    pub open spec fn counts_all(self, corpora: Seq<Corpus>, build_bigrams: bool, build_trigrams: bool) -> bool {
        &&& counts(self.unigram_table(), corpora)
        &&& match self.bigram_table() {
            Some(table) => build_bigrams && counts(table, corpora),
            None => !build_bigrams,
        }
        &&& match self.trigram_table() {
            Some(table) => build_trigrams && counts(table, corpora),
            None => !build_trigrams,
        }
    }

    /// The tables put together.
    pub fn from_tables(unigrams: Table<1>, bigrams: Option<Table<2>>, trigrams: Option<Table<3>>) -> (transitions:
        Self)
        ensures
            transitions.unigram_table() == unigrams,
            transitions.bigram_table() == bigrams,
            transitions.trigram_table() == trigrams,
    {
        Transitions { unigrams, bigrams, trigrams }
    }

    /// Counts the steps of every sentence of the dataset, each with the
    /// weight of its corpus. Gives nothing where a count does not fit a
    /// `u64`.
    pub fn try_build_from_dataset(dataset: &Dataset, build_bigrams: bool, build_trigrams: bool) -> (built:
        Option<Self>)
        ensures
            built.is_some() == all_counts_fit(dataset.corpora(), build_bigrams, build_trigrams),
            built matches Some(transitions) ==> transitions.counts_all(
                dataset.corpora(),
                build_bigrams,
                build_trigrams,
            ),
    {
        let parts = dataset.messages();
        let ghost corpora = dataset.corpora();
        let unigrams = match build_rows::<1>(parts) {
            Some((rows, lookup)) => {
                proof {
                    assert forall|a: Seq<u64>, b: Seq<u64>| #[trigger]
                        dataset_steps(corpora, 1, a, b) <= u64::MAX by {
                        lemma_count_fits(rows@, a, b);
                        assert(rows_count(rows@, a, b) == dataset_steps(corpora, 1, a, b));
                    }
                }
                Table { rows, lookup }
            },
            None => {
                return None;
            },
        };
        let bigrams = if build_bigrams {
            match build_rows::<2>(parts) {
                Some((rows, lookup)) => {
                    proof {
                        assert forall|a: Seq<u64>, b: Seq<u64>| #[trigger]
                            dataset_steps(corpora, 2, a, b) <= u64::MAX by {
                            lemma_count_fits(rows@, a, b);
                            assert(rows_count(rows@, a, b) == dataset_steps(corpora, 2, a, b));
                        }
                    }
                    Some(Table { rows, lookup })
                },
                None => {
                    return None;
                },
            }
        } else {
            None
        };
        let trigrams = if build_trigrams {
            match build_rows::<3>(parts) {
                Some((rows, lookup)) => {
                    proof {
                        assert forall|a: Seq<u64>, b: Seq<u64>| #[trigger]
                            dataset_steps(corpora, 3, a, b) <= u64::MAX by {
                            lemma_count_fits(rows@, a, b);
                            assert(rows_count(rows@, a, b) == dataset_steps(corpora, 3, a, b));
                        }
                    }
                    Some(Table { rows, lookup })
                },
                None => {
                    return None;
                },
            }
        } else {
            None
        };
        Some(Transitions { unigrams, bigrams, trigrams })
    }

    /// Counts the steps of every sentence of the dataset, each with the
    /// weight of its corpus.
    pub fn build_from_dataset(dataset: &Dataset, build_bigrams: bool, build_trigrams: bool) -> (transitions:
        Self)
        requires
            all_counts_fit(dataset.corpora(), build_bigrams, build_trigrams),
        ensures
            transitions.counts_all(dataset.corpora(), build_bigrams, build_trigrams),
    {
        match Self::try_build_from_dataset(dataset, build_bigrams, build_trigrams) {
            Some(transitions) => transitions,
            None => {
                proof {
                    assert(false);
                }
                Transitions { unigrams: Table::new(), bigrams: None, trigrams: None }
            },
        }
    }

    /// The table of steps between single tokens.
    pub fn unigrams(&self) -> (table: &Table<1>)
        ensures
            *table == self.unigram_table(),
    {
        &self.unigrams
    }

    /// The table of steps between pairs of tokens, where there is one.
    pub fn bigrams(&self) -> (table: Option<&Table<2>>)
        ensures
            match table {
                Some(found) => self.bigram_table() == Some(*found),
                None => self.bigram_table().is_none(),
            },
    {
        self.bigrams.as_ref()
    }

    /// The table of steps between triples of tokens, where there is one.
    pub fn trigrams(&self) -> (table: Option<&Table<3>>)
        ensures
            match table {
                Some(found) => self.trigram_table() == Some(*found),
                None => self.trigram_table().is_none(),
            },
    {
        self.trigrams.as_ref()
    }

    /// The number of single tokens with a successor.
    pub fn unigrams_len(&self) -> (size: usize)
        ensures
            size == self.unigram_table().content().len(),
    {
        self.unigrams.len()
    }

    /// The number of pairs of tokens with a successor.
    pub fn bigrams_len(&self) -> (size: Option<usize>)
        ensures
            match size {
                Some(found) => self.bigram_table().is_some() && found
                    == self.bigram_table().unwrap().content().len(),
                None => self.bigram_table().is_none(),
            },
    {
        match &self.bigrams {
            Some(table) => Some(table.len()),
            None => None,
        }
    }

    /// The number of triples of tokens with a successor.
    pub fn trigrams_len(&self) -> (size: Option<usize>)
        ensures
            match size {
                Some(found) => self.trigram_table().is_some() && found
                    == self.trigram_table().unwrap().content().len(),
                None => self.trigram_table().is_none(),
            },
    {
        match &self.trigrams {
            Some(table) => Some(table.len()),
            None => None,
        }
    }

    /// The successors of a single token with their counts, each successor
    /// once and each count at least one; nothing where the token has none.
    pub fn for_unigram(&self, unigram: &Unigram) -> (listed: Option<&Vec<(Unigram, u64)>>)
        ensures
            match listed {
                Some(next) => {
                    &&& self.unigram_table().has_context(unigram@)
                    &&& next.len() > 0
                    &&& wf_next(next@)
                    &&& forall|y: Seq<u64>| #[trigger]
                        next_count(next@, y) == self.unigram_table().count(unigram@, y)
                },
                None => !self.unigram_table().has_context(unigram@) && forall|y: Seq<u64>| #[trigger]
                    self.unigram_table().count(unigram@, y) == 0,
            },
    {
        self.unigrams.successors(unigram)
    }

    /// The successors of a pair of tokens with their counts, each successor
    /// once and each count at least one; nothing where the pair has none
    /// or pairs were not counted.
    pub fn for_bigram(&self, bigram: &Bigram) -> (listed: Option<&Vec<(Bigram, u64)>>)
        ensures
            match listed {
                Some(next) => {
                    &&& self.bigram_table().is_some()
                    &&& self.bigram_table().unwrap().has_context(bigram@)
                    &&& next.len() > 0
                    &&& wf_next(next@)
                    &&& forall|y: Seq<u64>| #[trigger]
                        next_count(next@, y) == self.bigram_table().unwrap().count(bigram@, y)
                },
                None => self.bigram_table() matches Some(table) ==> !table.has_context(bigram@) && forall|
                    y: Seq<u64>,
                | #[trigger] table.count(bigram@, y) == 0,
            },
    {
        match &self.bigrams {
            Some(table) => table.successors(bigram),
            None => None,
        }
    }

    /// The successors of a triple of tokens with their counts, each
    /// successor once and each count at least one; nothing where the
    /// triple has none or triples were not counted.
    pub fn for_trigram(&self, trigram: &Trigram) -> (listed: Option<&Vec<(Trigram, u64)>>)
        ensures
            match listed {
                Some(next) => {
                    &&& self.trigram_table().is_some()
                    &&& self.trigram_table().unwrap().has_context(trigram@)
                    &&& next.len() > 0
                    &&& wf_next(next@)
                    &&& forall|y: Seq<u64>| #[trigger]
                        next_count(next@, y) == self.trigram_table().unwrap().count(trigram@, y)
                },
                None => self.trigram_table() matches Some(table) ==> !table.has_context(trigram@) && forall|
                    y: Seq<u64>,
                | #[trigger] table.count(trigram@, y) == 0,
            },
    {
        match &self.trigrams {
            Some(table) => table.successors(trigram),
            None => None,
        }
    }
}

impl Default for Transitions {
    /// The counted steps of nothing: an empty table of single tokens and no
    /// other table.
    fn default() -> (empty: Self)
        ensures
            empty.unigram_table().content() == Seq::<Row<1>>::empty(),
            empty.bigram_table().is_none(),
            empty.trigram_table().is_none(),
    {
        Transitions { unigrams: Table::new(), bigrams: None, trigrams: None }
    }
}

} // verus!
