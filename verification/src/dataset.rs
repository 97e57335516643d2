use vstd::prelude::*;
use crate::tokenized_messages::Sentence;
use crate::tokenized_messages::TokenizedMessages;
use crate::tokenized_messages::count_occurrences;
use crate::tokenized_messages::occurrences;
use crate::tokenized_messages::sentences_of;
use crate::tokens::Tokens;
use crate::model::transitions::Transitions;
use crate::model::transitions::all_counts_fit;

verus! {

/// A corpus as contracts see it: its sentences and its weight.
pub type Corpus = (Seq<Sentence>, u64);

/// The corpora that a vector of weighted sentence sets stands for.
pub open spec fn corpora_of(parts: Seq<(TokenizedMessages, u64)>) -> Seq<Corpus> {
    Seq::new(parts.len(), |i: int| (parts[i].0.contents(), parts[i].1))
}

/// Every corpus counts at least once.
pub open spec fn weighted(corpora: Seq<Corpus>) -> bool {
    forall|i: int| 0 <= i < corpora.len() ==> (#[trigger] corpora[i]).1 >= 1
}

/// How a token occurs in a dataset. A number that does not fit is given as
/// the greatest number that does.
#[derive(Debug, Clone, Copy, PartialEq, Eq, Structural)]
pub struct WordStatistics {
    /// The number of sentences that hold the token.
    pub distinct: u128,
    /// The number of times the token stands in a sentence.
    pub total: u128,
    /// The number of times the token stands in a sentence, each counted
    /// with the weight of the corpus.
    pub importance: u128,
    /// The number of sentences.
    pub messages: u128,
}

/// `value`, or the greatest `u128` where it is greater than that.
pub open spec fn capped(value: nat) -> u128 {
    if value > u128::MAX {
        u128::MAX
    } else {
        value as u128
    }
}

/// What one sentence adds to the statistics of `token` in a corpus of
/// weight `weight`: whether it holds the token, how often, and how often
/// by weight.
pub open spec fn sentence_share(sentence: Sentence, weight: u64, token: u64) -> (nat, nat, nat) {
    let found = occurrences(sentence, token);
    (
        if found > 0 {
            1nat
        } else {
            0nat
        },
        found,
        (weight as nat) * found,
    )
}

/// The sums of the shares of `sentences`.
pub open spec fn corpus_share(sentences: Seq<Sentence>, weight: u64, token: u64) -> (nat, nat, nat)
    decreases sentences.len(),
{
    if sentences.len() == 0 {
        (0, 0, 0)
    } else {
        let before = corpus_share(sentences.drop_last(), weight, token);
        let last = sentence_share(sentences.last(), weight, token);
        (before.0 + last.0, before.1 + last.1, before.2 + last.2)
    }
}

/// The sums of the shares of `corpora`, and the number of their sentences.
pub open spec fn dataset_share(corpora: Seq<Corpus>, token: u64) -> (nat, nat, nat, nat)
    decreases corpora.len(),
{
    if corpora.len() == 0 {
        (0, 0, 0, 0)
    } else {
        let before = dataset_share(corpora.drop_last(), token);
        let last = corpus_share(corpora.last().0, corpora.last().1, token);
        (before.0 + last.0, before.1 + last.1, before.2 + last.2, before.3 + corpora.last().0.len())
    }
}

/// Sentence sets, each with the weight that a sentence of it counts for,
/// and the vocabulary that their tokens come from.
#[derive(Debug)]
pub struct Dataset {
    pub(crate) messages: Vec<(TokenizedMessages, u64)>,
    pub(crate) tokens: Tokens,
}

impl Dataset {
    /// Every weight is at least one.
    #[verifier::type_invariant]
    pub open(crate) spec fn wf(self) -> bool {
        weighted(corpora_of(self.messages@))
    }

    /// The corpora, in the order in which they were added.
    pub open(crate) spec fn corpora(self) -> Seq<Corpus> {
        corpora_of(self.messages@)
    }

    /// The vocabulary.
    pub open(crate) spec fn vocabulary(self) -> Tokens {
        self.tokens
    }

    /// This dataset with one more corpus, whose sentences count `weight`
    /// times each.
    pub fn with_messages(self, messages: TokenizedMessages, weight: u64) -> (grown: Self)
        requires
            weight >= 1,
        ensures
            grown.corpora() == self.corpora().push((messages.contents(), weight)),
            grown.vocabulary() == self.vocabulary(),
    {
        proof {
            use_type_invariant(&self);
        }
        let mut parts = self.messages;
        parts.push((messages, weight));
        proof {
            assert(corpora_of(parts@) =~= self.corpora().push((messages.contents(), weight)));
        }
        Dataset { messages: parts, tokens: self.tokens }
    }

    /// This dataset with the words of `tokens` merged into its vocabulary.
    pub fn with_tokens(self, tokens: Tokens) -> (grown: Self)
        ensures
            grown.corpora() == self.corpora(),
            crate::tokens::reserves_padding(grown.vocabulary()),
            grown.vocabulary().spec_len() >= self.vocabulary().spec_len(),
            grown.vocabulary().spec_len() >= tokens.spec_len(),
            grown.vocabulary().words() == crate::tokens::first_seen_in(self.vocabulary().words(), tokens.words()),
            grown.vocabulary().ids().take(self.vocabulary().ids().len() as int) == self.vocabulary().ids(),
            forall|word: Seq<char>| #[trigger]
                self.vocabulary().word_token().contains_key(word) ==> grown.vocabulary().word_token().contains_key(
                    word,
                ) && grown.vocabulary().word_token()[word] == self.vocabulary().word_token()[word],
            forall|word: Seq<char>| #[trigger]
                tokens.word_token().contains_key(word) ==> grown.vocabulary().word_token().contains_key(word)
                    || grown.vocabulary().spec_len() >= crate::tokens::capacity(),
            forall|k: int|
                self.vocabulary().words().len() <= k < grown.vocabulary().words().len()
                    ==> #[trigger] crate::tokens::keeps_or_yields(
                    tokens.word_token(),
                    grown.vocabulary().words(),
                    grown.vocabulary().ids(),
                    k,
                ),
    {
        proof {
            use_type_invariant(&self);
        }
        let merged = self.tokens.merge(tokens);
        Dataset { messages: self.messages, tokens: merged }
    }

    /// The corpora: each a sentence set with its weight, which is at least
    /// one.
    pub fn messages(&self) -> (parts: &[(TokenizedMessages, u64)])
        ensures
            corpora_of(parts@) == self.corpora(),
            weighted(corpora_of(parts@)),
    {
        proof {
            use_type_invariant(self);
        }
        self.messages.as_slice()
    }

    /// The counted steps of this dataset: see `Transitions::build_from_dataset`.
    pub fn build_transitions(&self, build_bigrams: bool, build_trigrams: bool) -> (transitions: Transitions)
        requires
            all_counts_fit(self.corpora(), build_bigrams, build_trigrams),
        ensures
            transitions.counts_all(self.corpora(), build_bigrams, build_trigrams),
    {
        Transitions::build_from_dataset(self, build_bigrams, build_trigrams)
    }

    /// How `token` occurs in the dataset.
    pub fn word_statistics(&self, token: u64) -> (statistics: WordStatistics)
        ensures
            statistics.distinct == capped(dataset_share(self.corpora(), token).0),
            statistics.total == capped(dataset_share(self.corpora(), token).1),
            statistics.importance == capped(dataset_share(self.corpora(), token).2),
            statistics.messages == capped(dataset_share(self.corpora(), token).3),
    {
        let ghost corpora = self.corpora();
        let mut distinct: u128 = 0;
        let mut total: u128 = 0;
        let mut importance: u128 = 0;
        let mut messages: u128 = 0;
        let mut k: usize = 0;
        proof {
            assert(corpora.take(0) =~= Seq::<Corpus>::empty());
        }
        while k < self.messages.len()
            invariant
                k <= self.messages.len(),
                corpora == corpora_of(self.messages@),
                distinct == capped(dataset_share(corpora.take(k as int), token).0),
                total == capped(dataset_share(corpora.take(k as int), token).1),
                importance == capped(dataset_share(corpora.take(k as int), token).2),
                messages == capped(dataset_share(corpora.take(k as int), token).3),
            decreases self.messages.len() - k,
        {
            let rows = self.messages[k].0.messages();
            let weight = self.messages[k].1;
            let ghost sentences = sentences_of(rows@);
            let ghost base = dataset_share(corpora.take(k as int), token);
            let mut j: usize = 0;
            proof {
                assert(corpora.take(k + 1).drop_last() =~= corpora.take(k as int));
                assert(corpora.take(k + 1).last() == (sentences, weight));
                assert(sentences.take(0) =~= Seq::<Sentence>::empty());
            }
            while j < rows.len()
                invariant
                    j <= rows.len(),
                    sentences == sentences_of(rows@),
                    distinct == capped(base.0 + corpus_share(sentences.take(j as int), weight, token).0),
                    total == capped(base.1 + corpus_share(sentences.take(j as int), weight, token).1),
                    importance == capped(base.2 + corpus_share(sentences.take(j as int), weight, token).2),
                    messages == capped(base.3 + j as nat),
                decreases rows.len() - j,
            {
                let found = count_occurrences(&rows[j], token);
                proof {
                    assert(sentences.take(j + 1).drop_last() =~= sentences.take(j as int));
                    assert(sentences.take(j + 1).last() == rows@[j as int]@);
                    assert(weight * found <= u128::MAX) by (nonlinear_arith)
                        requires
                            weight <= 0xffff_ffff_ffff_ffff,
                            found <= 0xffff_ffff_ffff_ffff,
                            u128::MAX == 0xffff_ffff_ffff_ffff_ffff_ffff_ffff_ffff,
                    ;
                }
                if found > 0 {
                    distinct = distinct.saturating_add(1);
                }
                total = total.saturating_add(found as u128);
                importance = importance.saturating_add((weight as u128) * (found as u128));
                messages = messages.saturating_add(1);
                j += 1;
            }
            proof {
                assert(sentences.take(j as int) =~= sentences);
            }
            k += 1;
        }
        proof {
            assert(corpora.take(k as int) =~= corpora);
        }
        WordStatistics { distinct, total, importance, messages }
    }

    /// The vocabulary.
    pub fn tokens(&self) -> (tokens: &Tokens)
        ensures
            *tokens == self.vocabulary(),
    {
        &self.tokens
    }
}

impl Default for Dataset {
    fn default() -> (empty: Self)
        ensures
            empty.corpora() == Seq::<Corpus>::empty(),
            empty.vocabulary().words() == Seq::<Seq<char>>::empty(),
    {
        let parts: Vec<(TokenizedMessages, u64)> = Vec::new();
        proof {
            assert(corpora_of(parts@) =~= Seq::<Corpus>::empty());
        }
        Dataset { messages: parts, tokens: Tokens::default() }
    }
}

} // verus!
