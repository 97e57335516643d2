use std::collections::HashMap;

use markov_chains::dataset::Dataset;
use markov_chains::messages::Messages;
use markov_chains::model::transitions::{Table, Transitions};
use markov_chains::ngram::{Bigram, Ngram, Trigram, Unigram, END_TOKEN, START_TOKEN};
use markov_chains::tokenized_messages::TokenizedMessages;
use markov_chains::tokens::Tokens;

fn sample() -> Dataset {
    let messages = Messages::parse_from_lines(&[
        String::from("Hello, World!"),
        String::from("Example text")
    ]);

    let tokens = Tokens::parse_from_messages(&messages);

    let messages = TokenizedMessages::tokenize_message(&messages, &tokens).unwrap();

    Dataset::default()
        .with_messages(messages, 1)
        .with_tokens(tokens)
}

#[test]
fn build_transitions() {
    let dataset = sample();

    // hello -> world
    // example -> text
    let transitions = dataset.build_transitions(false, false);

    let hello = dataset.tokens().find_token("hello,").unwrap();
    let world = dataset.tokens().find_token("world!").unwrap();
    let example = dataset.tokens().find_token("example").unwrap();
    let text = dataset.tokens().find_token("text").unwrap();

    let hello = Unigram::new([hello]);
    let world = Unigram::new([world]);
    let example = Unigram::new([example]);
    let text = Unigram::new([text]);

    assert_eq!(transitions.for_unigram(&hello), Some(&vec![(world, 1)]));
    assert_eq!(transitions.for_unigram(&example), Some(&vec![(text, 1)]));

    let probability = |current: &Unigram, next: &Unigram| {
        transitions.for_unigram(current).map(|_| {
            transitions.unigrams().count_of(current, next) as f64 / transitions.unigrams().total_of(current) as f64
        })
    };

    assert_eq!(probability(&hello, &world), Some(1.0));
    assert_eq!(probability(&example, &text), Some(1.0));

    assert!(transitions.bigrams().is_none());
    assert!(transitions.trigrams().is_none());
    assert_eq!(transitions.bigrams_len(), None);
    assert_eq!(transitions.trigrams_len(), None);
}

#[test]
fn bigram_steps_run_into_the_end_padding() {
    let dataset = sample();

    let transitions = Transitions::build_from_dataset(&dataset, true, false);

    let hello = dataset.tokens().find_token("hello,").unwrap();
    let world = dataset.tokens().find_token("world!").unwrap();

    assert_eq!(
        transitions.for_bigram(&Bigram::new([START_TOKEN, hello])),
        Some(&vec![(Bigram::new([hello, world]), 1)])
    );
    assert_eq!(
        transitions.for_bigram(&Bigram::new([hello, world])),
        Some(&vec![(Bigram::new([world, END_TOKEN]), 1)])
    );
    assert_eq!(
        transitions.for_bigram(&Bigram::new([world, END_TOKEN])),
        Some(&vec![(Bigram::new([END_TOKEN, END_TOKEN]), 1)])
    );
    assert_eq!(transitions.for_bigram(&Bigram::new([END_TOKEN, END_TOKEN])), None);
    assert_eq!(transitions.for_trigram(&Trigram::start()), None);
    assert_eq!(transitions.bigrams_len(), Some(7));
}

#[test]
fn counts_are_weighted_sums() {
    let first = TokenizedMessages::default()
        .with_sentence(vec![1, 2, 1, 2])
        .with_sentence(vec![1, 3]);
    let second = TokenizedMessages::default()
        .with_sentence(vec![1, 2]);

    let dataset = Dataset::default()
        .with_messages(first, 2)
        .with_messages(second, 5);

    let transitions = Transitions::try_build_from_dataset(&dataset, true, true).unwrap();

    let one = Unigram::new([1]);
    let two = Unigram::new([2]);
    let three = Unigram::new([3]);

    let unigrams = transitions.unigrams();

    assert_eq!(unigrams.count_of(&one, &two), 2 * 2 + 5);
    assert_eq!(unigrams.count_of(&one, &three), 2);
    assert_eq!(unigrams.count_of(&two, &one), 2);
    assert_eq!(unigrams.count_of(&two, &three), 0);
    assert_eq!(unigrams.count_of(&Unigram::start(), &one), 2 * 2 + 5);
    assert_eq!(unigrams.count_of(&two, &Unigram::new([END_TOKEN])), 2 + 5);
    assert_eq!(unigrams.total_of(&one), 11);
    assert_eq!(unigrams.total_of(&Unigram::new([9])), 0);
    assert_eq!(transitions.unigrams_len(), 4);

    let trigrams = transitions.trigrams().unwrap();

    assert_eq!(
        trigrams.count_of(&Trigram::new([START_TOKEN, 1, 2]), &Trigram::new([1, 2, END_TOKEN])),
        5
    );
    assert_eq!(
        trigrams.count_of(&Trigram::new([1, 2, 1]), &Trigram::new([2, 1, 2])),
        2
    );

    for row in unigrams.rows() {
        for (_, count) in &row.next {
            assert!(*count >= 1);
        }
    }
}

#[test]
fn counts_that_do_not_fit_are_refused() {
    let sentences = TokenizedMessages::default().with_sentence(vec![1]);
    let more = TokenizedMessages::default().with_sentence(vec![1]);

    let dataset = Dataset::default()
        .with_messages(sentences, u64::MAX)
        .with_messages(more, 1);

    assert!(Transitions::try_build_from_dataset(&dataset, false, false).is_none());
}

#[test]
fn paths_leave_padding_out() {
    let sentences = TokenizedMessages::default()
        .with_sentence(vec![1, 2, 3])
        .with_sentence(vec![1, 3])
        .with_sentence(vec![1, 4]);

    let dataset = Dataset::default().with_messages(sentences, 1);

    let transitions = Transitions::build_from_dataset(&dataset, false, false);
    let unigrams = transitions.unigrams();

    // 1 -> 2, 1 -> 3, 1 -> 4, 2 -> 3
    assert_eq!(unigrams.complexity(), 4);
    // contexts: start, 1, 2, 3, 4; `1` and `2` have more than 4 / 5 paths
    assert_eq!(unigrams.len(), 5);
    assert_eq!(unigrams.above_average(), 2);
}

#[test]
fn tables_grow_step_by_step() {
    let table = Table::<1>::new()
        .with_steps(Unigram::new([1]), Unigram::new([2]), 3)
        .with_steps(Unigram::new([1]), Unigram::new([2]), 4)
        .with_steps(Unigram::new([1]), Unigram::new([3]), 0)
        .with_steps(Unigram::new([2]), Unigram::new([3]), u64::MAX)
        .with_steps(Unigram::new([2]), Unigram::new([3]), 1);

    assert_eq!(table.count_of(&Unigram::new([1]), &Unigram::new([2])), 7);
    assert_eq!(table.count_of(&Unigram::new([1]), &Unigram::new([3])), 0);
    assert_eq!(table.count_of(&Unigram::new([2]), &Unigram::new([3])), u64::MAX);
    assert_eq!(table.len(), 2);
}

#[test]
fn probabilities_of_a_context_add_up_to_one() {
    let sentences = TokenizedMessages::default()
        .with_sentence(vec![1, 2, 1, 3])
        .with_sentence(vec![1, 2])
        .with_sentence(vec![1, 4]);

    let dataset = Dataset::default().with_messages(sentences, 3);

    let transitions = Transitions::build_from_dataset(&dataset, false, false);
    let unigrams = transitions.unigrams();

    let one = Unigram::new([1]);
    let listed = transitions.for_unigram(&one).unwrap();
    let total = unigrams.total_of(&one);

    assert_eq!(total, 3 * 4);

    let mut sum = 0.0;

    for (next, count) in listed {
        assert_eq!(*count, unigrams.count_of(&one, next));

        sum += *count as f64 / total as f64;
    }

    assert!((sum - 1.0).abs() < 1e-9);
    assert_eq!(unigrams.count_of(&one, &Unigram::new([2])) as f64 / total as f64, 0.5);
}

fn plain_counts<const N: usize>(corpora: &[(Vec<Vec<u64>>, u64)]) -> HashMap<([u64; N], [u64; N]), u64> {
    let mut counts = HashMap::new();

    for (sentences, weight) in corpora {
        for sentence in sentences {
            let mut padded = vec![START_TOKEN; N];

            padded.extend(sentence);
            padded.extend(vec![END_TOKEN; N]);

            for i in 0..padded.len() - N {
                let current = <[u64; N]>::try_from(&padded[i..i + N]).unwrap();
                let next = <[u64; N]>::try_from(&padded[i + 1..i + 1 + N]).unwrap();

                *counts.entry((current, next)).or_default() += *weight;
            }
        }
    }

    counts
}

fn assert_counts<const N: usize>(table: &Table<N>, expected: HashMap<([u64; N], [u64; N]), u64>) {
    let mut listed = 0;

    for row in table.rows() {
        assert_eq!(table.successors(&row.current), Some(&row.next));

        for (next, count) in &row.next {
            assert_eq!(expected.get(&(row.current.0, next.0)), Some(count));

            listed += 1;
        }

        let leaving = expected.iter()
            .filter(|((current, _), _)| *current == row.current.0)
            .map(|(_, count)| *count as u128)
            .sum::<u128>();

        assert_eq!(table.total_of(&row.current), leaving);
    }

    assert_eq!(listed, expected.len());

    for ((current, next), count) in expected {
        assert_eq!(table.count_of(&Ngram::new(current), &Ngram::new(next)), count);
    }
}

#[test]
fn counts_agree_with_a_plain_count_over_many_sentences() {
    let mut state: u64 = 0x2545_f491_4f6c_dd1d;

    let mut draw = |bound: u64| {
        state ^= state << 13;
        state ^= state >> 7;
        state ^= state << 17;

        state % bound
    };

    let mut dataset = Dataset::default();
    let mut corpora: Vec<(Vec<Vec<u64>>, u64)> = Vec::new();

    for weight in 1..4 {
        let mut corpus = TokenizedMessages::default();

        for _ in 0..150 {
            let len = draw(12) as usize;
            let sentence = (0..len).map(|_| 1 + draw(40)).collect::<Vec<u64>>();

            corpus = corpus.with_sentence(sentence);
        }

        corpora.push((corpus.messages().clone(), weight));

        dataset = dataset.with_messages(corpus, weight);
    }

    let transitions = Transitions::build_from_dataset(&dataset, true, true);

    assert_counts(transitions.unigrams(), plain_counts::<1>(&corpora));
    assert_counts(transitions.bigrams().unwrap(), plain_counts::<2>(&corpora));
    assert_counts(transitions.trigrams().unwrap(), plain_counts::<3>(&corpora));
}
