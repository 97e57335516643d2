use markov_chains::dataset::{Dataset, WordStatistics};
use markov_chains::model::model::{Model, VERSION};
use markov_chains::model::params::GenerationParams;
use markov_chains::model::transitions::Transitions;
use markov_chains::ngram::Unigram;
use markov_chains::tokenized_messages::TokenizedMessages;
use markov_chains::tokens::Tokens;

fn pair(tag: &str, value: &str) -> (String, String) {
    (String::from(tag), String::from(value))
}

#[test]
fn built_model_carries_the_version() {
    let sentences = TokenizedMessages::default().with_sentence(vec![1, 2]);
    let tokens = Tokens::default()
        .with_word(String::from("a"), 1)
        .with_word(String::from("b"), 2);

    let dataset = Dataset::default()
        .with_messages(sentences, 3)
        .with_tokens(tokens);

    let model = Model::build(dataset, true, false);

    assert_eq!(model.headers(), &vec![pair("version", VERSION)]);
    assert_eq!(model.tokens().find_token("b"), Some(2));
    assert_eq!(model.transitions().unigrams().count_of(&Unigram::new([1]), &Unigram::new([2])), 3);
    assert!(model.transitions().bigrams().is_some());
    assert!(model.transitions().trigrams().is_none());
}

#[test]
fn headers_are_set_and_replaced() {
    let transitions = Transitions::try_build_from_dataset(&Dataset::default(), false, false).unwrap();

    let model = Model::from_parts(transitions, Tokens::default())
        .with_header("version", "1")
        .with_header("name", "first")
        .with_header("version", "2")
        .with_header_line("author=somebody=else")
        .with_header_line("no delimiter")
        .with_header_line("name=second")
        .with_header_line("=empty tag")
        .with_header_line("empty value=");

    assert_eq!(model.headers(), &vec![
        pair("version", "2"),
        pair("name", "second"),
        pair("author", "somebody=else"),
        pair("", "empty tag"),
        pair("empty value", "")
    ]);
}

#[test]
fn default_parameters() {
    let params = GenerationParams::default();

    assert_eq!(params.max_len, 150);
    assert_eq!(params.repeat_penalty_window, None);
    assert!(!params.no_bigrams);
    assert!(!params.no_trigrams);
}

#[test]
fn prompts_are_tokenized_word_by_word() {
    let tokens = Tokens::default()
        .with_word(String::from("hello,"), 5)
        .with_word(String::from("world!"), 6);

    assert_eq!(tokens.tokenize_prompt("  Hello,  WORLD! hello, "), Some(vec![5, 6, 5]));
    assert_eq!(tokens.tokenize_prompt(""), Some(vec![]));
    assert_eq!(tokens.tokenize_prompt("hello, there"), None);
}

#[test]
fn word_statistics_count_sentences_and_weights() {
    let first = TokenizedMessages::default()
        .with_sentence(vec![1, 2, 1])
        .with_sentence(vec![2, 3])
        .with_sentence(vec![1]);
    let second = TokenizedMessages::default()
        .with_sentence(vec![1, 1, 1, 1]);

    let dataset = Dataset::default()
        .with_messages(first, 2)
        .with_messages(second, 10);

    assert_eq!(dataset.word_statistics(1), WordStatistics {
        distinct: 3,
        total: 7,
        importance: 3 * 2 + 4 * 10,
        messages: 4
    });

    assert_eq!(dataset.word_statistics(9), WordStatistics {
        distinct: 0,
        total: 0,
        importance: 0,
        messages: 4
    });

    assert_eq!(dataset.messages().len(), 2);
    assert_eq!(dataset.messages()[1].1, 10);
}
