use vstd::prelude::*;
use crate::model::model::Model;
use crate::model::params::GenerationParams;
use crate::model::transitions::Table;
use crate::model::transitions::Transitions;
use crate::ngram::END_TOKEN;
use crate::ngram::Ngram;
use crate::ngram::window_at;
use crate::random::random_number;
use crate::tokenized_messages::occurrences;

verus! {

/// A token that may come next, with the count of the step that leads to it.
pub type Candidate = (u64, u64);

/// The candidates that a list of successors gives: of every successor that
/// does not end on the end token, its last slot and its count.
pub open spec fn kept<const N: usize>(next: Seq<(Ngram<N>, u64)>) -> Seq<Candidate>
    decreases next.len(),
{
    if next.len() == 0 {
        Seq::empty()
    } else if next.last().0@.last() == END_TOKEN {
        kept(next.drop_last())
    } else {
        kept(next.drop_last()).push((next.last().0@.last(), next.last().1))
    }
}

/// The window of size `n` that ends on the last token of the chain: the last
/// window of the chain's tailless lifting.
pub open spec fn context(chain: Seq<u64>, n: nat) -> Seq<u64> {
    window_at(chain, n, chain.len() as int)
}

/// The candidates that a table has for a chain.
pub open spec fn offered<const N: usize>(table: Table<N>, chain: Seq<u64>) -> Seq<Candidate> {
    match table.successors_spec(context(chain, N as nat)) {
        Some(next) => kept(next),
        None => Seq::empty(),
    }
}

/// The candidates of the table of triples, where there is one and the
/// parameters let it be used.
pub open spec fn from_trigrams(transitions: Transitions, params: GenerationParams, chain: Seq<u64>) -> Seq<
    Candidate,
> {
    match transitions.trigram_table() {
        Some(table) => if params.no_trigrams {
            Seq::empty()
        } else {
            offered(table, chain)
        },
        None => Seq::empty(),
    }
}

/// The candidates of the table of pairs, where there is one and the
/// parameters let it be used.
pub open spec fn from_bigrams(transitions: Transitions, params: GenerationParams, chain: Seq<u64>) -> Seq<
    Candidate,
> {
    match transitions.bigram_table() {
        Some(table) => if params.no_bigrams {
            Seq::empty()
        } else {
            offered(table, chain)
        },
        None => Seq::empty(),
    }
}

/// The candidates for a chain: those of the highest order that has any.
pub open spec fn backoff(transitions: Transitions, params: GenerationParams, chain: Seq<u64>) -> Seq<Candidate> {
    if from_trigrams(transitions, params, chain).len() > 0 {
        from_trigrams(transitions, params, chain)
    } else if from_bigrams(transitions, params, chain).len() > 0 {
        from_bigrams(transitions, params, chain)
    } else {
        offered(transitions.unigram_table(), chain)
    }
}

/// `candidates`, sorted by count, with `candidate` put in behind the last
/// of them that does not count more.
pub open spec fn insert_sorted(candidates: Seq<Candidate>, candidate: Candidate) -> Seq<Candidate>
    decreases candidates.len(),
{
    if candidates.len() == 0 {
        seq![candidate]
    } else if candidates.last().1 <= candidate.1 {
        candidates.push(candidate)
    } else {
        insert_sorted(candidates.drop_last(), candidate).push(candidates.last())
    }
}

/// The candidates ordered by count, the least first; candidates of one
/// count keep their order.
pub open spec fn sorted(candidates: Seq<Candidate>) -> Seq<Candidate>
    decreases candidates.len(),
{
    if candidates.len() == 0 {
        Seq::empty()
    } else {
        insert_sorted(sorted(candidates.drop_last()), candidates.last())
    }
}

/// No candidate before another counts more than it.
pub open spec fn ascending(candidates: Seq<Candidate>) -> bool {
    forall|i: int, j: int| 0 <= i <= j < candidates.len() ==> candidates[i].1 <= candidates[j].1
}

/// No candidate is the end token.
pub open spec fn no_end(candidates: Seq<Candidate>) -> bool {
    forall|i: int| 0 <= i < candidates.len() ==> (#[trigger] candidates[i]).0 != END_TOKEN
}

/// The part of the chain that is searched for repeats: its last `window`
/// tokens, or all of it where it is shorter or no window is set.
pub open spec fn recent(chain: Seq<u64>, window: Option<usize>) -> Seq<u64> {
    match window {
        Some(size) => if size < chain.len() {
            chain.skip(chain.len() - size)
        } else {
            chain
        },
        None => chain,
    }
}

/// `entry` is `candidate` or one of `candidates`.
pub open spec fn among(candidates: Seq<Candidate>, candidate: Candidate, entry: Candidate) -> bool {
    entry == candidate || exists|k: int| 0 <= k < candidates.len() && candidates[k] == entry
}

/// Putting a candidate in keeps what was there and adds the candidate;
/// it keeps an ascending order and keeps the end token out.
proof fn lemma_insert_sorted(candidates: Seq<Candidate>, candidate: Candidate)
    ensures
        insert_sorted(candidates, candidate).len() == candidates.len() + 1,
        insert_sorted(candidates, candidate).to_multiset() == candidates.to_multiset().insert(candidate),
        ascending(candidates) ==> ascending(insert_sorted(candidates, candidate)),
        no_end(candidates) && candidate.0 != END_TOKEN ==> no_end(insert_sorted(candidates, candidate)),
        forall|i: int|
            0 <= i < insert_sorted(candidates, candidate).len() ==> among(
                candidates,
                candidate,
                #[trigger] insert_sorted(candidates, candidate)[i],
            ),
    decreases candidates.len(),
{
    broadcast use vstd::seq_lib::group_to_multiset_ensures;

    let after = insert_sorted(candidates, candidate);
    if candidates.len() == 0 {
        assert(seq![candidate] =~= Seq::<Candidate>::empty().push(candidate));
    } else if candidates.last().1 <= candidate.1 {
        assert forall|i: int| 0 <= i < after.len() implies among(candidates, candidate, #[trigger] after[i]) by {
            if i < candidates.len() {
                assert(candidates[i] == after[i]);
            }
        }
    } else {
        let shorter = candidates.drop_last();
        let inner = insert_sorted(shorter, candidate);
        let last = candidates.last();
        lemma_insert_sorted(shorter, candidate);
        assert(candidates =~= shorter.push(last));
        assert(after.to_multiset() =~= candidates.to_multiset().insert(candidate));
        assert forall|i: int| 0 <= i < after.len() implies among(candidates, candidate, #[trigger] after[i]) by {
            if i == after.len() - 1 {
                assert(candidates[candidates.len() - 1] == after[i]);
            } else {
                assert(among(shorter, candidate, inner[i]));
                if inner[i] != candidate {
                    let k = choose|k: int| 0 <= k < shorter.len() && shorter[k] == inner[i];
                    assert(candidates[k] == after[i]);
                }
            }
        }
        if ascending(candidates) {
            assert(ascending(shorter)) by {
                assert forall|i: int, j: int| 0 <= i <= j < shorter.len() implies shorter[i].1
                    <= shorter[j].1 by {
                    assert(shorter[i] == candidates[i] && shorter[j] == candidates[j]);
                }
            }
            assert forall|i: int, j: int| 0 <= i <= j < after.len() implies after[i].1 <= after[j].1 by {
                if j == after.len() - 1 {
                    if i < j {
                        assert(among(shorter, candidate, inner[i]));
                        if inner[i] != candidate {
                            let k = choose|k: int| 0 <= k < shorter.len() && shorter[k] == inner[i];
                            assert(candidates[k].1 <= candidates[candidates.len() - 1].1);
                        }
                    }
                } else {
                    assert(inner[i].1 <= inner[j].1);
                }
            }
        }
        if no_end(candidates) && candidate.0 != END_TOKEN {
            assert(no_end(shorter)) by {
                assert forall|i: int| 0 <= i < shorter.len() implies (#[trigger] shorter[i]).0
                    != END_TOKEN by {
                    assert(shorter[i] == candidates[i]);
                }
            }
        }
    }
}

/// Sorting keeps the candidates, each as often as it was there, and leaves
/// them in ascending order of count.
pub proof fn lemma_sorted(candidates: Seq<Candidate>)
    ensures
        sorted(candidates).len() == candidates.len(),
        sorted(candidates).to_multiset() == candidates.to_multiset(),
        ascending(sorted(candidates)),
        no_end(candidates) ==> no_end(sorted(candidates)),
    decreases candidates.len(),
{
    broadcast use vstd::seq_lib::group_to_multiset_ensures;

    if candidates.len() > 0 {
        let shorter = candidates.drop_last();
        lemma_sorted(shorter);
        lemma_insert_sorted(sorted(shorter), candidates.last());
        assert(candidates =~= shorter.push(candidates.last()));
        if no_end(candidates) {
            assert(no_end(shorter)) by {
                assert forall|i: int| 0 <= i < shorter.len() implies (#[trigger] shorter[i]).0
                    != END_TOKEN by {
                    assert(shorter[i] == candidates[i]);
                }
            }
        }
    }
}

/// The candidates of a list of successors hold no end token.
proof fn lemma_kept_no_end<const N: usize>(next: Seq<(Ngram<N>, u64)>)
    ensures
        no_end(kept(next)),
    decreases next.len(),
{
    if next.len() > 0 {
        lemma_kept_no_end(next.drop_last());
    }
}

/// The candidates of all orders hold no end token.
pub proof fn lemma_backoff_no_end(transitions: Transitions, params: GenerationParams, chain: Seq<u64>)
    ensures
        no_end(backoff(transitions, params, chain)),
{
    if let Some(table) = transitions.trigram_table() {
        if let Some(next) = table.successors_spec(context(chain, 3)) {
            lemma_kept_no_end(next);
        }
    }
    if let Some(table) = transitions.bigram_table() {
        if let Some(next) = table.successors_spec(context(chain, 2)) {
            lemma_kept_no_end(next);
        }
    }
    if let Some(next) = transitions.unigram_table().successors_spec(context(chain, 1)) {
        lemma_kept_no_end(next);
    }
}

/// The candidates of a list of successors.
fn keep<const N: usize>(next: &Vec<(Ngram<N>, u64)>) -> (candidates: Vec<Candidate>)
    requires
        N >= 1,
    ensures
        candidates@ == kept(next@),
{
    let mut candidates: Vec<Candidate> = Vec::new();
    let mut j: usize = 0;
    proof {
        assert(next@.take(0) =~= Seq::<(Ngram<N>, u64)>::empty());
    }
    while j < next.len()
        invariant
            N >= 1,
            j <= next.len(),
            candidates@ == kept(next@.take(j as int)),
        decreases next.len() - j,
    {
        proof {
            assert(next@.take(j + 1).drop_last() =~= next@.take(j as int));
            assert(next@.take(j + 1).last() == next@[j as int]);
        }
        let token = next[j].0.emitted_token();
        if token != END_TOKEN {
            candidates.push((token, next[j].1));
        }
        j += 1;
    }
    proof {
        assert(next@.take(j as int) =~= next@);
    }
    candidates
}

/// The candidates that a table has for a chain.
fn offered_by<const N: usize>(table: &Table<N>, chain: &Vec<u64>) -> (candidates: Vec<Candidate>)
    requires
        N >= 1,
    ensures
        candidates@ == offered(*table, chain@),
{
    let context: Ngram<N> = Ngram::window(chain.as_slice(), chain.len() as u128);
    match table.successors(&context) {
        Some(next) => keep(next),
        None => Vec::new(),
    }
}

/// Two lists of candidates, each ordered by count, put together in order
/// of count; of two candidates of one count the one of `left` comes first.
pub open spec fn merged(left: Seq<Candidate>, right: Seq<Candidate>) -> Seq<Candidate>
    decreases left.len() + right.len(),
{
    if right.len() == 0 {
        left
    } else if left.len() == 0 {
        right
    } else if left.last().1 > right.last().1 {
        merged(left.drop_last(), right).push(left.last())
    } else {
        merged(left, right.drop_last()).push(right.last())
    }
}

/// To put a candidate into two lists that are put together is to put it
/// into the second of them.
proof fn lemma_insert_merged(left: Seq<Candidate>, right: Seq<Candidate>, candidate: Candidate)
    ensures
        insert_sorted(merged(left, right), candidate) == merged(left, insert_sorted(right, candidate)),
    decreases left.len() + right.len(),
{
    let both = merged(left, right);
    let into = insert_sorted(right, candidate);
    if right.len() == 0 {
        assert(into =~= seq![candidate]);
        assert(into.drop_last() =~= right);
        assert(into.last() == candidate);
        if left.len() > 0 {
            if left.last().1 > candidate.1 {
                lemma_insert_merged(left.drop_last(), right, candidate);
                assert(merged(left.drop_last(), right) == left.drop_last());
            }
        }
    } else if left.len() == 0 {
        lemma_insert_sorted(right, candidate);
    } else if left.last().1 > right.last().1 {
        assert(both.last() == left.last());
        assert(both.drop_last() =~= merged(left.drop_last(), right));
        if left.last().1 <= candidate.1 {
            assert(into == right.push(candidate));
            assert(into.drop_last() =~= right);
            assert(into.last() == candidate);
        } else {
            lemma_insert_merged(left.drop_last(), right, candidate);
            lemma_insert_sorted(right, candidate);
            if right.last().1 <= candidate.1 {
                assert(into.last() == candidate);
            } else {
                assert(into.last() == right.last());
            }
        }
    } else {
        assert(both.last() == right.last());
        assert(both.drop_last() =~= merged(left, right.drop_last()));
        if right.last().1 <= candidate.1 {
            assert(into == right.push(candidate));
            assert(into.drop_last() =~= right);
            assert(into.last() == candidate);
        } else {
            lemma_insert_merged(left, right.drop_last(), candidate);
            lemma_insert_sorted(right.drop_last(), candidate);
            assert(into == insert_sorted(right.drop_last(), candidate).push(right.last()));
            assert(into.drop_last() =~= insert_sorted(right.drop_last(), candidate));
            assert(into.last() == right.last());
        }
    }
}

/// A list in order is its two parts in order, put together.
proof fn lemma_sorted_parts(left: Seq<Candidate>, right: Seq<Candidate>)
    ensures
        sorted(left + right) == merged(sorted(left), sorted(right)),
    decreases right.len(),
{
    if right.len() == 0 {
        assert(left + right =~= left);
    } else {
        let shorter = right.drop_last();
        lemma_sorted_parts(left, shorter);
        lemma_insert_merged(sorted(left), sorted(shorter), right.last());
        assert((left + right).drop_last() =~= left + shorter);
    }
}

/// Two lists of candidates put together.
fn merge_candidates(left: &Vec<Candidate>, right: &Vec<Candidate>) -> (out: Vec<Candidate>)
    ensures
        out@ == merged(left@, right@),
{
    let total: u128 = left.len() as u128 + right.len() as u128;
    let mut out: Vec<Candidate> = Vec::new();
    let mut filled: u128 = 0;
    while filled < total
        invariant
            filled <= total,
            out@.len() == filled,
        decreases total - filled,
    {
        out.push((0, 0));
        filled += 1;
    }
    let mut i: usize = left.len();
    let mut j: usize = right.len();
    proof {
        assert(out.len() == total);
        assert(left@.take(i as int) =~= left@);
        assert(right@.take(j as int) =~= right@);
        assert(out@.skip(i + j) =~= Seq::<Candidate>::empty());
        assert(merged(left@, right@) + Seq::<Candidate>::empty() =~= merged(left@, right@));
    }
    while i > 0 || j > 0
        invariant
            i <= left.len(),
            j <= right.len(),
            left.len() + right.len() <= usize::MAX,
            out@.len() == left.len() + right.len(),
            merged(left@, right@) == merged(left@.take(i as int), right@.take(j as int)) + out@.skip(i + j),
        decreases i + j,
    {
        let ghost first = left@.take(i as int);
        let ghost second = right@.take(j as int);
        let ghost behind = out@.skip(i + j);
        let place: usize = i + j - 1;
        if i > 0 && (j == 0 || left[i - 1].1 > right[j - 1].1) {
            out[place] = left[i - 1];
            proof {
                assert(first.drop_last() =~= left@.take(i - 1));
                assert(merged(first, second) == merged(first.drop_last(), second).push(first.last())) by {
                    if j == 0 {
                        assert(merged(first.drop_last(), second) =~= first.drop_last());
                        assert(first.drop_last().push(first.last()) =~= first);
                    }
                }
                assert(out@.skip(i + j - 1) =~= seq![first.last()] + behind);
                assert(merged(first.drop_last(), second).push(first.last()) + behind =~= merged(
                    first.drop_last(),
                    second,
                ) + (seq![first.last()] + behind));
            }
            i -= 1;
        } else {
            out[place] = right[j - 1];
            proof {
                assert(second.drop_last() =~= right@.take(j - 1));
                assert(merged(first, second) == merged(first, second.drop_last()).push(second.last())) by {
                    if i == 0 {
                        assert(merged(first, second.drop_last()) =~= second.drop_last());
                        assert(second.drop_last().push(second.last()) =~= second);
                    }
                }
                assert(out@.skip(i + j - 1) =~= seq![second.last()] + behind);
                assert(merged(first, second.drop_last()).push(second.last()) + behind =~= merged(
                    first,
                    second.drop_last(),
                ) + (seq![second.last()] + behind));
            }
            j -= 1;
        }
    }
    proof {
        assert(merged(left@.take(0), right@.take(0)) =~= Seq::<Candidate>::empty());
        assert(out@.skip(0) =~= out@);
        assert(Seq::<Candidate>::empty() + out@ =~= out@);
    }
    out
}

/// The candidates from `from` up to `to`, ordered by count, the least
/// first.
fn sort_range(candidates: &Vec<Candidate>, from: usize, to: usize) -> (ordered: Vec<Candidate>)
    requires
        from <= to <= candidates.len(),
    ensures
        ordered@ == sorted(candidates@.subrange(from as int, to as int)),
    decreases to - from,
{
    let ghost part = candidates@.subrange(from as int, to as int);
    let mut ordered: Vec<Candidate> = Vec::new();
    if to - from == 0 {
        proof {
            assert(part =~= Seq::<Candidate>::empty());
        }
        return ordered;
    }
    if to - from == 1 {
        ordered.push(candidates[from]);
        proof {
            assert(part.drop_last() =~= Seq::<Candidate>::empty());
            assert(part.last() == candidates@[from as int]);
            assert(sorted(part.drop_last()) =~= Seq::<Candidate>::empty());
            assert(sorted(part) =~= seq![candidates@[from as int]]);
        }
        return ordered;
    }
    let middle: usize = from + (to - from) / 2;
    let left = sort_range(candidates, from, middle);
    let right = sort_range(candidates, middle, to);
    proof {
        lemma_sorted_parts(
            candidates@.subrange(from as int, middle as int),
            candidates@.subrange(middle as int, to as int),
        );
        assert(candidates@.subrange(from as int, middle as int) + candidates@.subrange(
            middle as int,
            to as int,
        ) =~= part);
    }
    merge_candidates(&left, &right)
}

/// The candidates ordered by count, the least first.
fn sort_candidates(candidates: Vec<Candidate>) -> (ordered: Vec<Candidate>)
    ensures
        ordered@ == sorted(candidates@),
{
    proof {
        assert(candidates@.subrange(0, candidates@.len() as int) =~= candidates@);
    }
    sort_range(&candidates, 0, candidates.len())
}

/// How often `token` stands in the part of the chain that is searched for
/// repeats.
fn count_repeats(chain: &Vec<u64>, window: Option<usize>, token: u64) -> (repeats: usize)
    ensures
        repeats == occurrences(recent(chain@, window), token),
{
    let from: usize = match window {
        Some(size) => if size < chain.len() {
            chain.len() - size
        } else {
            0
        },
        None => 0,
    };
    let ghost searched = recent(chain@, window);
    let mut repeats: usize = 0;
    let mut i: usize = from;
    proof {
        assert(chain@.skip(0) =~= chain@);
        assert(searched == chain@.skip(from as int));
        assert(searched.take(0) =~= Seq::<u64>::empty());
    }
    while i < chain.len()
        invariant
            from <= i <= chain.len(),
            searched == chain@.skip(from as int),
            repeats <= i - from,
            repeats == occurrences(searched.take(i - from), token),
        decreases chain.len() - i,
    {
        proof {
            assert(searched.take(i - from + 1).drop_last() =~= searched.take(i - from));
            assert(searched.take(i - from + 1).last() == chain@[i as int]);
        }
        if chain[i] == token {
            repeats += 1;
        }
        i += 1;
    }
    proof {
        assert(searched.take(i - from) =~= searched);
    }
    repeats
}

/// Where a generator stands between two tokens.
#[derive(Debug, Clone, Copy, PartialEq, Eq, Structural)]
pub enum Phase {
    /// Ready to look for the candidates of the next token.
    Idle,
    /// The candidates are found; the generator waits to be told how many
    /// to drop.
    Trimming,
    /// The generator waits to be told whether its best candidate is taken.
    Sampling,
    /// The generator has stopped and emits nothing more.
    Stopped,
}

/// What the generator asks of whoever drives it: whether the candidate
/// `token` is taken.
#[derive(Debug, Clone, Copy, PartialEq, Eq, Structural)]
pub struct Question {
    /// The candidate: the one with the highest count that is left.
    pub token: u64,
    /// How often the candidate stands in the searched part of the chain.
    pub repeats: usize,
    /// The length of the chain.
    pub chain_len: usize,
    /// A number drawn for this question, to be held against the chance
    /// that the candidate is taken.
    pub draw: u32,
}

/// What the generator does in answer to what it is told.
#[derive(Debug, Clone, Copy, PartialEq, Eq, Structural)]
pub enum Action {
    /// It asks whether a candidate is taken.
    Ask(Question),
    /// It has put the token at the end of the chain and hands it out.
    Emit(u64),
    /// It has stopped.
    Stop,
}

/// The state of a generator as contracts see it.
pub struct State {
    pub chain: Seq<u64>,
    pub remaining: Seq<Candidate>,
    pub phase: Phase,
}

/// The state after a stop.
pub open spec fn stopped(state: State) -> (State, Action) {
    (State { chain: state.chain, remaining: Seq::empty(), phase: Phase::Stopped }, Action::Stop)
}

/// The state after `token` was chosen: the generator stops where the chain
/// is longer than the parameters allow or the token is the end token, and
/// emits the token else.
pub open spec fn finish(state: State, params: GenerationParams, token: u64) -> (State, Action) {
    if state.chain.len() > params.max_len || token == END_TOKEN {
        stopped(state)
    } else {
        (
            State { chain: state.chain.push(token), remaining: Seq::empty(), phase: Phase::Idle },
            Action::Emit(token),
        )
    }
}

/// The state once the candidates in `state.remaining` are the ones to
/// choose from: with more than one left the generator asks about the last,
/// with one left that one is chosen.
pub open spec fn ask_or_finish(state: State, params: GenerationParams, draw: u32) -> (State, Action) {
    let token = state.remaining.last().0;
    if state.remaining.len() > 1 {
        (
            State { chain: state.chain, remaining: state.remaining, phase: Phase::Sampling },
            Action::Ask(
                Question {
                    token,
                    repeats: occurrences(recent(state.chain, params.repeat_penalty_window), token) as usize,
                    chain_len: state.chain.len() as usize,
                    draw,
                },
            ),
        )
    } else {
        finish(state, params, token)
    }
}

/// The state after the generator was told to drop `dropped` candidates in
/// all: it stops where it did not wait for that or no candidate would be
/// left. Half of the number, rounded down, is dropped at each end.
pub open spec fn after_trim(state: State, params: GenerationParams, dropped: usize, draw: u32) -> (State, Action) {
    if state.phase != Phase::Trimming || state.remaining.len() <= dropped {
        stopped(state)
    } else {
        ask_or_finish(
            State {
                chain: state.chain,
                remaining: state.remaining.subrange(
                    dropped as int / 2,
                    state.remaining.len() - dropped as int / 2,
                ),
                phase: state.phase,
            },
            params,
            draw,
        )
    }
}

/// The state after the generator was told whether its candidate is taken:
/// it stops where it had not asked; a candidate that is taken is chosen,
/// one that is not leaves the candidates.
pub open spec fn after_verdict(state: State, params: GenerationParams, accept: bool, draw: u32) -> (State, Action) {
    if state.phase != Phase::Sampling {
        stopped(state)
    } else if accept {
        finish(state, params, state.remaining.last().0)
    } else {
        ask_or_finish(
            State { chain: state.chain, remaining: state.remaining.drop_last(), phase: state.phase },
            params,
            draw,
        )
    }
}

/// The state after the generator was told to look for candidates: it stops
/// where it was not ready for that or there is none.
pub open spec fn after_begin(state: State, transitions: Transitions, params: GenerationParams) -> State {
    let found = sorted(backoff(transitions, params, state.chain));
    if state.phase != Phase::Idle || found.len() == 0 {
        stopped(state).0
    } else {
        State { chain: state.chain, remaining: found, phase: Phase::Trimming }
    }
}

/// What holds of every state of a generator that started from a prompt of
/// `prompt_len` tokens.
pub open spec fn valid(state: State, params: GenerationParams, prompt_len: nat) -> bool {
    &&& prompt_len <= state.chain.len()
    &&& forall|i: int| prompt_len <= i < state.chain.len() ==> state.chain[i] != END_TOKEN
    &&& state.chain.len() <= prompt_len || state.chain.len() <= params.max_len + 1
    &&& no_end(state.remaining)
    &&& state.phase == Phase::Trimming ==> state.remaining.len() >= 1
    &&& state.phase == Phase::Sampling ==> state.remaining.len() >= 2
}

/// A generator that started from a prompt emits no more tokens than the
/// parameters allow the chain to be long, and never the end token. From an
/// empty prompt it can emit one token more.
pub proof fn lemma_emitted_bounded(state: State, params: GenerationParams, prompt_len: nat)
    requires
        valid(state, params, prompt_len),
    ensures
        prompt_len >= 1 ==> state.chain.skip(prompt_len as int).len() <= params.max_len,
        state.chain.skip(prompt_len as int).len() <= params.max_len + 1,
        forall|i: int|
            0 <= i < state.chain.skip(prompt_len as int).len() ==> state.chain.skip(prompt_len as int)[i]
                != END_TOKEN,
{
}

/// Looking for candidates keeps a state valid.
pub proof fn lemma_begin_valid(state: State, transitions: Transitions, params: GenerationParams, prompt_len: nat)
    requires
        valid(state, params, prompt_len),
    ensures
        valid(after_begin(state, transitions, params), params, prompt_len),
{
    lemma_backoff_no_end(transitions, params, state.chain);
    lemma_sorted(backoff(transitions, params, state.chain));
}

/// Dropping candidates keeps a state valid.
pub proof fn lemma_trim_valid(state: State, params: GenerationParams, prompt_len: nat, dropped: usize, draw: u32)
    requires
        valid(state, params, prompt_len),
    ensures
        valid(after_trim(state, params, dropped, draw).0, params, prompt_len),
{
}

/// An answer to a question keeps a state valid.
pub proof fn lemma_verdict_valid(state: State, params: GenerationParams, prompt_len: nat, accept: bool, draw: u32)
    requires
        valid(state, params, prompt_len),
    ensures
        valid(after_verdict(state, params, accept, draw).0, params, prompt_len),
{
}

/// Once stopped, a generator stays stopped and its chain stays as it is.
pub proof fn lemma_stopped_stays(
    state: State,
    transitions: Transitions,
    params: GenerationParams,
    dropped: usize,
    accept: bool,
    draw: u32,
)
    requires
        state.phase == Phase::Stopped,
    ensures
        after_begin(state, transitions, params).phase == Phase::Stopped,
        after_begin(state, transitions, params).chain == state.chain,
        after_trim(state, params, dropped, draw) == stopped(state),
        after_verdict(state, params, accept, draw) == stopped(state),
{
}

/// A producer of tokens: it starts from a prompt and puts one token after
/// the other at the end of its chain, each chosen among the successors of
/// the end of the chain, until it stops.
///
/// The generator decides; the chances by which a candidate is taken are
/// with whoever drives it. For each token the driver calls `begin`, then
/// `trim` with the number of candidates to drop at each end, and then
/// answers each question with `decide` until a token is emitted or the
/// generator stops.
#[derive(Debug)]
pub struct Generator<'a> {
    pub(crate) chain: Vec<u64>,
    pub(crate) prompt_len: usize,
    pub(crate) remaining: Vec<Candidate>,
    pub(crate) phase: Phase,
    pub(crate) params: &'a GenerationParams,
    pub(crate) model: &'a Model,
}

impl<'a> Generator<'a> {
    /// The state: the chain, the candidates that are left, and the phase.
    pub open(crate) spec fn state(self) -> State {
        State { chain: self.chain@, remaining: self.remaining@, phase: self.phase }
    }

    /// The length of the prompt that the generator started from.
    pub open(crate) spec fn prompt(self) -> nat {
        self.prompt_len as nat
    }

    /// The parameters of the generation.
    pub open(crate) spec fn parameters(self) -> GenerationParams {
        *self.params
    }

    /// The model that the generator draws on.
    pub open(crate) spec fn source(self) -> Model {
        *self.model
    }

    /// The state is valid: what every generator made by `new` and driven
    /// by its methods meets.
    pub open(crate) spec fn wf(self) -> bool {
        valid(self.state(), *self.params, self.prompt_len as nat)
    }

    /// A generator that starts from `prompt`.
    pub fn new(model: &'a Model, prompt: Vec<u64>, params: &'a GenerationParams) -> (generator: Self)
        ensures
            generator.state() == (State { chain: prompt@, remaining: Seq::empty(), phase: Phase::Idle }),
            generator.prompt() == prompt.len(),
            generator.parameters() == *params,
            generator.source() == *model,
            generator.wf(),
    {
        let prompt_len = prompt.len();
        Generator { chain: prompt, prompt_len, remaining: Vec::new(), phase: Phase::Idle, params, model }
    }

    /// The chain: the prompt and behind it the tokens emitted so far.
    pub fn chain(&self) -> (chain: &Vec<u64>)
        ensures
            chain@ == self.state().chain,
    {
        &self.chain
    }

    /// The tokens emitted so far: none of them the end token, and no more
    /// of them than the greatest chain length of the parameters, or one
    /// more where the prompt was empty.
    pub fn emitted(&self) -> (emitted: &[u64])
        requires
            self.wf(),
        ensures
            emitted@ == self.state().chain.skip(self.prompt() as int),
            self.prompt() >= 1 ==> emitted.len() <= self.parameters().max_len,
            emitted.len() <= self.parameters().max_len + 1,
            forall|i: int| 0 <= i < emitted.len() ==> emitted@[i] != END_TOKEN,
    {
        proof {
            lemma_emitted_bounded(self.state(), *self.params, self.prompt_len as nat);
        }
        vstd::slice::slice_subrange(self.chain.as_slice(), self.prompt_len, self.chain.len())
    }

    /// Where the generator stands.
    pub fn phase(&self) -> (phase: Phase)
        ensures
            phase == self.state().phase,
    {
        self.phase
    }

    /// Whether the generator has stopped.
    pub fn is_stopped(&self) -> (stopped: bool)
        ensures
            stopped == (self.state().phase == Phase::Stopped),
    {
        self.phase == Phase::Stopped
    }

    /// The candidates for the next token.
    fn candidates(&self) -> (found: Vec<Candidate>)
        ensures
            found@ == backoff(self.source().steps(), self.parameters(), self.state().chain),
    {
        let transitions = self.model.transitions();
        if !self.params.no_trigrams {
            if let Some(table) = transitions.trigrams() {
                let found = offered_by(table, &self.chain);
                if found.len() > 0 {
                    return found;
                }
            }
        }
        if !self.params.no_bigrams {
            if let Some(table) = transitions.bigrams() {
                let found = offered_by(table, &self.chain);
                if found.len() > 0 {
                    return found;
                }
            }
        }
        offered_by(transitions.unigrams(), &self.chain)
    }

    /// Looks for the candidates of the next token: the successors of the
    /// end of the chain in the table of the highest order that has any,
    /// without those that end on the end token, ordered by count. Gives
    /// their number; the generator has stopped where that is zero.
    pub fn begin(&mut self) -> (count: usize)
        requires
            old(self).wf(),
        ensures
            final(self).state() == after_begin(old(self).state(), old(self).source().steps(), old(self).parameters()),
            count == final(self).state().remaining.len(),
            final(self).prompt() == old(self).prompt(),
            final(self).parameters() == old(self).parameters(),
            final(self).source() == old(self).source(),
            final(self).wf(),
    {
        if self.phase != Phase::Idle {
            self.phase = Phase::Stopped;
            self.remaining = Vec::new();
            return 0;
        }
        let found = self.candidates();
        let ordered = sort_candidates(found);
        let count = ordered.len();
        proof {
            lemma_backoff_no_end(self.model.steps(), *self.params, self.chain@);
            lemma_sorted(found@);
        }
        if count == 0 {
            self.phase = Phase::Stopped;
            self.remaining = Vec::new();
        } else {
            self.remaining = ordered;
            self.phase = Phase::Trimming;
        }
        count
    }

    /// Stops the generator.
    fn stop(&mut self) -> (action: Action)
        requires
            old(self).wf(),
        ensures
            (final(self).state(), action) == stopped(old(self).state()),
            final(self).prompt() == old(self).prompt(),
            final(self).parameters() == old(self).parameters(),
            final(self).source() == old(self).source(),
    {
        self.phase = Phase::Stopped;
        self.remaining = Vec::new();
        Action::Stop
    }

    /// Chooses `token`.
    fn settle_on(&mut self, token: u64) -> (action: Action)
        requires
            old(self).wf(),
            old(self).state().phase == Phase::Stopped,
        ensures
            (final(self).state(), action) == finish(old(self).state(), old(self).parameters(), token),
            final(self).prompt() == old(self).prompt(),
            final(self).parameters() == old(self).parameters(),
            final(self).source() == old(self).source(),
    {
        self.remaining = Vec::new();
        if self.chain.len() > self.params.max_len || token == END_TOKEN {
            Action::Stop
        } else {
            self.chain.push(token);
            self.phase = Phase::Idle;
            Action::Emit(token)
        }
    }

    /// Asks about the last candidate, or chooses it where it is the only
    /// one.
    fn ask_or_choose(&mut self, draw: u32) -> (action: Action)
        requires
            old(self).wf(),
            old(self).state().phase == Phase::Stopped,
            old(self).state().remaining.len() >= 1,
        ensures
            (final(self).state(), action) == ask_or_finish(old(self).state(), old(self).parameters(), draw),
            final(self).prompt() == old(self).prompt(),
            final(self).parameters() == old(self).parameters(),
            final(self).source() == old(self).source(),
    {
        let token = self.remaining[self.remaining.len() - 1].0;
        if self.remaining.len() > 1 {
            let repeats = count_repeats(&self.chain, self.params.repeat_penalty_window, token);
            let chain_len = self.chain.len();
            self.phase = Phase::Sampling;
            Action::Ask(Question { token, repeats, chain_len, draw })
        } else {
            self.settle_on(token)
        }
    }

    /// Drops `dropped` of the ordered candidates, half of them (rounded
    /// down) at each end, and stops where `dropped` is no less than their
    /// number. Then asks about the best candidate that is left, or chooses
    /// it where it is the only one. A question that is asked carries
    /// `draw`.
    pub fn trim_with(&mut self, dropped: usize, draw: u32) -> (action: Action)
        requires
            old(self).wf(),
        ensures
            (final(self).state(), action) == after_trim(old(self).state(), old(self).parameters(), dropped, draw),
            final(self).prompt() == old(self).prompt(),
            final(self).parameters() == old(self).parameters(),
            final(self).source() == old(self).source(),
            final(self).wf(),
    {
        let count = self.remaining.len();
        if self.phase != Phase::Trimming || dropped >= count {
            return self.stop();
        }
        let offset: usize = dropped / 2;
        let ghost before = self.remaining@;
        self.phase = Phase::Stopped;
        let mut candidates: Vec<Candidate> = Vec::new();
        let mut i: usize = offset;
        while i < count - offset
            invariant
                offset <= i <= count - offset,
                count == self.remaining.len(),
                before == self.remaining@,
                candidates@ == before.subrange(offset as int, i as int),
            decreases count - offset - i,
        {
            candidates.push(self.remaining[i]);
            proof {
                assert(before.subrange(offset as int, i + 1) =~= before.subrange(offset as int, i as int).push(
                    before[i as int],
                ));
            }
            i += 1;
        }
        proof {
            assert(no_end(candidates@)) by {
                assert forall|k: int| 0 <= k < candidates.len() implies (#[trigger] candidates@[k]).0
                    != END_TOKEN by {
                    assert(candidates@[k] == before[offset + k]);
                }
            }
        }
        self.remaining = candidates;
        let action = self.ask_or_choose(draw);
        action
    }

    /// Takes the answer to the question that was asked: a candidate that
    /// is taken is chosen; one that is not leaves the candidates, and the
    /// generator asks about the next best, or chooses it where it is the
    /// only one left. A question that is asked carries `draw`.
    pub fn decide_with(&mut self, accept: bool, draw: u32) -> (action: Action)
        requires
            old(self).wf(),
        ensures
            (final(self).state(), action) == after_verdict(old(self).state(), old(self).parameters(), accept, draw),
            final(self).prompt() == old(self).prompt(),
            final(self).parameters() == old(self).parameters(),
            final(self).source() == old(self).source(),
            final(self).wf(),
    {
        if self.phase != Phase::Sampling {
            return self.stop();
        }
        self.phase = Phase::Stopped;
        let action = if accept {
            let token = self.remaining[self.remaining.len() - 1].0;
            self.settle_on(token)
        } else {
            let ghost before = self.remaining@;
            let _ = self.remaining.pop();
            proof {
                assert(self.remaining@ =~= before.drop_last());
            }
            self.ask_or_choose(draw)
        };
        action
    }

    /// `trim_with` with a number from the random generator as the draw.
    pub fn trim(&mut self, dropped: usize) -> (action: Action)
        requires
            old(self).wf(),
        ensures
            exists|draw: u32|
                (final(self).state(), action) == #[trigger] after_trim(
                    old(self).state(),
                    old(self).parameters(),
                    dropped,
                    draw,
                ),
            final(self).prompt() == old(self).prompt(),
            final(self).parameters() == old(self).parameters(),
            final(self).source() == old(self).source(),
            final(self).wf(),
    {
        let draw = (random_number() >> 32) as u32;
        self.trim_with(dropped, draw)
    }

    /// `decide_with` with a number from the random generator as the draw.
    pub fn decide(&mut self, accept: bool) -> (action: Action)
        requires
            old(self).wf(),
        ensures
            exists|draw: u32|
                (final(self).state(), action) == #[trigger] after_verdict(
                    old(self).state(),
                    old(self).parameters(),
                    accept,
                    draw,
                ),
            final(self).prompt() == old(self).prompt(),
            final(self).parameters() == old(self).parameters(),
            final(self).source() == old(self).source(),
            final(self).wf(),
    {
        let draw = (random_number() >> 32) as u32;
        self.decide_with(accept, draw)
    }
}

} // verus!
