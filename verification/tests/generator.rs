use markov_chains::dataset::Dataset;
use markov_chains::messages::Messages;
use markov_chains::model::generator::{Action, Generator, Phase, Question};
use markov_chains::model::model::Model;
use markov_chains::model::params::GenerationParams;
use markov_chains::ngram::{END_TOKEN, START_TOKEN};
use markov_chains::tokenized_messages::TokenizedMessages;
use markov_chains::tokens::Tokens;

struct Chances {
    k_normal: f64,
    temperature: f64,
    temperature_alpha: f64,
    repeat_penalty: f64,
}

fn takes(chances: &Chances, question: &Question) -> bool {
    let seed = question.draw as f64 / u32::MAX as f64;

    if question.repeats > 0 {
        seed < chances.repeat_penalty.powi(question.repeats as i32)
    } else {
        seed < chances.temperature * chances.temperature_alpha.powi(question.chain_len as i32)
    }
}

fn next_token(generator: &mut Generator, chances: &Chances, draw: u32) -> Option<u64> {
    let count = generator.begin();

    if count == 0 {
        return None;
    }

    let dropped = ((1.0 - chances.k_normal) * count as f64).floor() as usize;

    let mut action = generator.trim_with(dropped, draw);

    loop {
        match action {
            Action::Ask(question) => {
                action = generator.decide_with(takes(chances, &question), draw);
            }
            Action::Emit(token) => return Some(token),
            Action::Stop => return None,
        }
    }
}

fn model_of(sentences: Vec<Vec<u64>>, bigrams: bool, trigrams: bool) -> Model {
    let mut corpus = TokenizedMessages::default();

    for sentence in sentences {
        corpus = corpus.with_sentence(sentence);
    }

    Model::build(Dataset::default().with_messages(corpus, 1), bigrams, trigrams)
}

#[test]
fn generator_emits_the_only_successor_and_stops() {
    let messages = Messages::parse_from_lines(&[
        String::from("Hello, World!"),
        String::from("Example text")
    ]);

    let tokens = Tokens::parse_from_messages(&messages);
    let tokenized = TokenizedMessages::tokenize_message(&messages, &tokens).unwrap();

    let dataset = Dataset::default()
        .with_messages(tokenized, 1)
        .with_tokens(tokens);

    let model = Model::build(dataset, false, false);

    let hello = model.tokens().find_token("hello,").unwrap();
    let world = model.tokens().find_token("world!").unwrap();

    let params = GenerationParams { max_len: 5, ..GenerationParams::default() };
    let chances = Chances { k_normal: 1.0, temperature: 1.0, temperature_alpha: 1.0, repeat_penalty: 1.0 };

    let mut generator = model.generate(vec![hello], &params);

    assert_eq!(next_token(&mut generator, &chances, 0), Some(world));
    assert_eq!(next_token(&mut generator, &chances, 0), None);
    assert!(generator.is_stopped());
    assert_eq!(next_token(&mut generator, &chances, 0), None);
    assert_eq!(generator.emitted(), &[world]);
    assert_eq!(generator.chain(), &vec![hello, world]);
}

#[test]
fn repeated_token_is_rejected_without_a_chance() {
    let model = model_of(vec![vec![1, 1, 1, 3]], false, false);

    let params = GenerationParams::default();
    let chances = Chances { k_normal: 1.0, temperature: 1.0, temperature_alpha: 1.0, repeat_penalty: 0.0 };

    let mut generator = model.generate(vec![1], &params);

    assert_eq!(generator.begin(), 2);
    assert_eq!(generator.phase(), Phase::Trimming);

    let action = generator.trim_with(0, 0);

    assert_eq!(action, Action::Ask(Question { token: 1, repeats: 1, chain_len: 1, draw: 0 }));
    assert_eq!(generator.phase(), Phase::Sampling);

    let Action::Ask(question) = action else {
        unreachable!();
    };

    assert!(!takes(&chances, &question));
    assert_eq!(generator.decide_with(false, 0), Action::Emit(3));
    assert_eq!(generator.phase(), Phase::Idle);

    let mut generator = model.generate(vec![1], &params);
    let mut emitted = Vec::new();

    while let Some(token) = next_token(&mut generator, &chances, 0) {
        emitted.push(token);
    }

    assert_eq!(emitted, vec![3]);
}

#[test]
fn taken_candidate_is_emitted() {
    let model = model_of(vec![vec![1, 2], vec![1, 3], vec![4, 1, 3]], false, false);

    let params = GenerationParams::default();

    let mut generator = model.generate(vec![1], &params);

    // 1 -> 2 once, 1 -> 3 twice
    assert_eq!(generator.begin(), 2);
    assert_eq!(
        generator.trim_with(0, 7),
        Action::Ask(Question { token: 3, repeats: 0, chain_len: 1, draw: 7 })
    );
    assert_eq!(generator.decide_with(true, 8), Action::Emit(3));
    assert_eq!(generator.chain(), &vec![1, 3]);
}

#[test]
fn trimming_everything_stops_the_generator() {
    let model = model_of(vec![vec![1, 2], vec![1, 3], vec![4, 5]], false, false);

    let params = GenerationParams::default();
    let chances = Chances { k_normal: 0.0, temperature: 1.0, temperature_alpha: 1.0, repeat_penalty: 1.0 };

    // two candidates
    let mut generator = model.generate(vec![1], &params);

    assert_eq!(next_token(&mut generator, &chances, 0), None);
    assert!(generator.is_stopped());
    assert!(generator.emitted().is_empty());

    // one candidate
    let mut generator = model.generate(vec![4], &params);

    assert_eq!(generator.begin(), 1);
    assert_eq!(next_token(&mut model.generate(vec![4], &params), &chances, 0), None);
    assert_eq!(generator.trim_with(1, 0), Action::Stop);
    assert!(generator.is_stopped());

    let mut generator = model.generate(vec![1], &params);

    assert_eq!(generator.begin(), 2);
    assert_eq!(generator.trim_with(2, 0), Action::Stop);

    let mut generator = model.generate(vec![1], &params);

    assert_eq!(generator.begin(), 2);
    assert_eq!(generator.trim_with(7, 0), Action::Stop);

    // nothing is dropped where less than two are to go
    let mut generator = model.generate(vec![4], &params);

    assert_eq!(generator.begin(), 1);
    assert_eq!(generator.trim_with(0, 0), Action::Emit(5));

    let mut generator = model.generate(vec![1], &params);

    assert_eq!(generator.begin(), 2);
    assert_eq!(
        generator.trim_with(1, 0),
        Action::Ask(Question { token: 3, repeats: 0, chain_len: 1, draw: 0 })
    );
}

#[test]
fn trimming_keeps_the_middle() {
    let model = model_of(
        vec![vec![1, 2], vec![9, 1, 3], vec![1, 3], vec![8, 1, 4], vec![7, 1, 4], vec![1, 4]],
        false,
        false
    );

    let params = GenerationParams::default();

    let mut generator = model.generate(vec![1], &params);

    // 1 -> 2 once, 1 -> 3 twice, 1 -> 4 three times
    assert_eq!(generator.begin(), 3);
    assert_eq!(generator.trim_with(2, 0), Action::Emit(3));
}

#[test]
fn emitted_tokens_stay_within_the_length_and_are_never_the_end() {
    let model = model_of(vec![vec![1, 2, 1, 2, 1, 2], vec![2, 1]], true, true);

    let chances = Chances { k_normal: 1.0, temperature: 1.0, temperature_alpha: 1.0, repeat_penalty: 1.0 };

    for max_len in 0..6 {
        let params = GenerationParams { max_len, ..GenerationParams::default() };

        let mut generator = model.generate(vec![1], &params);
        let mut emitted = Vec::new();

        while let Some(token) = next_token(&mut generator, &chances, 0) {
            emitted.push(token);

            assert!(emitted.len() < 100);
        }

        assert_eq!(generator.emitted(), &emitted);
        assert!(emitted.len() <= max_len);
        assert!(!emitted.contains(&END_TOKEN));
        assert!(!emitted.contains(&START_TOKEN));
    }

    let params = GenerationParams { max_len: 0, ..GenerationParams::default() };

    let mut generator = model.generate(vec![], &params);

    assert!(next_token(&mut generator, &chances, 0).is_some());
    assert_eq!(next_token(&mut generator, &chances, 0), None);
    assert_eq!(generator.emitted().len(), 1);
}

#[test]
fn higher_orders_are_asked_first() {
    let model = model_of(vec![vec![1, 2, 3], vec![4, 2, 5], vec![6, 2, 5]], true, false);

    let chances = Chances { k_normal: 1.0, temperature: 1.0, temperature_alpha: 1.0, repeat_penalty: 1.0 };
    let params = GenerationParams::default();

    // pairs: (1, 2) -> (2, 3) only
    let mut generator = model.generate(vec![1, 2], &params);

    assert_eq!(generator.begin(), 1);
    assert_eq!(generator.trim_with(0, 0), Action::Emit(3));

    // single tokens: 2 -> 3 once, 2 -> 5 twice
    let params = GenerationParams { no_bigrams: true, ..GenerationParams::default() };

    let mut generator = model.generate(vec![1, 2], &params);

    assert_eq!(generator.begin(), 2);
    assert_eq!(next_token(&mut model.generate(vec![1, 2], &params), &chances, 0), Some(5));

    // a pair that was never seen falls back to single tokens
    let params = GenerationParams::default();

    let mut generator = model.generate(vec![3, 2], &params);

    assert_eq!(generator.begin(), 2);
}

#[test]
fn repeats_are_counted_in_the_window() {
    let model = model_of(vec![vec![1, 2], vec![1, 1]], false, false);

    let params = GenerationParams { repeat_penalty_window: Some(2), ..GenerationParams::default() };

    let mut generator = model.generate(vec![2, 2, 2, 1], &params);

    // 1 -> 2 and 1 -> 1, once each; the later one is asked about first
    assert_eq!(generator.begin(), 2);
    assert_eq!(
        generator.trim_with(0, 3),
        Action::Ask(Question { token: 1, repeats: 1, chain_len: 4, draw: 3 })
    );
    assert_eq!(generator.decide_with(false, 4), Action::Emit(2));

    let params = GenerationParams { repeat_penalty_window: None, ..GenerationParams::default() };

    let mut generator = model.generate(vec![1, 1, 2, 1], &params);

    assert_eq!(generator.begin(), 2);
    assert_eq!(
        generator.trim_with(0, 3),
        Action::Ask(Question { token: 1, repeats: 3, chain_len: 4, draw: 3 })
    );
}

#[test]
fn steps_out_of_turn_stop_the_generator() {
    let model = model_of(vec![vec![1, 2], vec![1, 3]], false, false);

    let params = GenerationParams::default();

    let mut generator = model.generate(vec![1], &params);

    assert_eq!(generator.decide_with(true, 0), Action::Stop);
    assert!(generator.is_stopped());
    assert_eq!(generator.begin(), 0);

    let mut generator = model.generate(vec![1], &params);

    assert_eq!(generator.trim_with(0, 0), Action::Stop);

    let mut generator = model.generate(vec![1], &params);

    assert_eq!(generator.begin(), 2);
    assert_eq!(generator.begin(), 0);
    assert_eq!(generator.phase(), Phase::Stopped);
}

#[test]
fn random_draws_drive_the_generator_too() {
    let model = model_of(vec![vec![1, 2], vec![1, 3]], false, false);

    let params = GenerationParams::default();

    let mut generator = model.generate(vec![1], &params);

    assert_eq!(generator.begin(), 2);

    let Action::Ask(question) = generator.trim(0) else {
        unreachable!();
    };

    assert_eq!(question.token, 3);
    assert_eq!(question.repeats, 0);
    assert_eq!(question.chain_len, 1);

    assert_eq!(generator.decide(false), Action::Emit(2));
}

#[test]
fn candidates_are_asked_about_from_the_highest_count_down() {
    let mut sentences = Vec::new();
    let mut listed: Vec<(u64, u64)> = Vec::new();

    for token in 2..60u64 {
        let count = 1 + (token * 7) % 5;

        listed.push((token, count));

        for copy in 0..count {
            sentences.push(vec![100 + copy, 1, token]);
        }
    }

    let model = model_of(sentences, false, false);
    let params = GenerationParams::default();

    let mut expected = listed.clone();

    expected.sort_by_key(|candidate| candidate.1);

    let mut generator = model.generate(vec![1], &params);

    assert_eq!(generator.begin(), expected.len());

    let mut action = generator.trim_with(7, 0);
    let mut asked = Vec::new();

    while let Action::Ask(question) = action {
        asked.push(question.token);

        action = generator.decide_with(false, 0);
    }

    let Action::Emit(last) = action else {
        unreachable!();
    };

    asked.push(last);

    let kept = expected[3..expected.len() - 3]
        .iter()
        .rev()
        .map(|candidate| candidate.0)
        .collect::<Vec<_>>();

    assert_eq!(asked, kept);
}
