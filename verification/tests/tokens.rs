use std::collections::HashSet;

use markov_chains::messages::Messages;
use markov_chains::ngram::{END_TOKEN, START_TOKEN};
use markov_chains::tokens::{Tokens, UnknownToken};

#[test]
fn tokenizing() {
    let messages = Messages::parse_from_lines(&[
        String::from("Hello, World!"),
        String::from("Example text")
    ]);

    let tokens = Tokens::parse_from_messages(&messages);

    let hello = tokens.find_token("hello,").unwrap();
    let world = tokens.find_token("world!").unwrap();
    let example = tokens.find_token("example").unwrap();
    let text = tokens.find_token("text").unwrap();

    assert_eq!(tokens.find_word(hello), Some("hello,"));
    assert_eq!(tokens.find_word(world), Some("world!"));
    assert_eq!(tokens.find_word(example), Some("example"));
    assert_eq!(tokens.find_word(text), Some("text"));
}

#[test]
fn tokens_merging() {
    let messages = Messages::default()
        .merge(Messages::parse_from_lines(&[
            String::from("Hello, World!")
        ]))
        .merge(Messages::parse_from_lines(&[
            String::from("Example text")
        ]));

    let tokens = Tokens::parse_from_messages(&messages);

    let hello = tokens.find_token("hello,").unwrap();
    let world = tokens.find_token("world!").unwrap();
    let example = tokens.find_token("example").unwrap();
    let text = tokens.find_token("text").unwrap();

    assert_eq!(tokens.find_word(hello), Some("hello,"));
    assert_eq!(tokens.find_word(world), Some("world!"));
    assert_eq!(tokens.find_word(example), Some("example"));
    assert_eq!(tokens.find_word(text), Some("text"));
}

#[test]
fn vocabulary_holds_exactly_the_words() {
    let messages = Messages::parse_from_lines(&[
        String::from("Hello, World!"),
        String::from("Example text"),
        String::from("hello, text")
    ]);

    let tokens = Tokens::parse_from_messages(&messages);

    assert_eq!(tokens.len(), 4);
    assert!(!tokens.is_empty());
    assert!(Tokens::default().is_empty());
    assert_eq!(tokens.find_token("missing"), None);
    assert_eq!(tokens.find_token("Hello,"), None);
}

#[test]
fn padding_tokens_are_reserved() {
    let tokens = Tokens::default()
        .with_word(String::from("a"), START_TOKEN)
        .with_word(String::from("b"), END_TOKEN)
        .with_word(String::from("c"), 1)
        .with_word(String::from("d"), 77)
        .with_word(String::from("a"), 99);

    assert_eq!(tokens.find_token("a"), Some(1));
    assert_eq!(tokens.find_token("b"), Some(2));
    assert_eq!(tokens.find_token("c"), Some(3));
    assert_eq!(tokens.find_token("d"), Some(77));
    assert_eq!(tokens.len(), 4);

    assert_eq!(tokens.find_word(START_TOKEN), Some("<START>"));
    assert_eq!(tokens.find_word(END_TOKEN), Some("<END>"));
    assert_eq!(tokens.find_word(77), Some("d"));
    assert_eq!(tokens.find_word(78), None);
}

#[test]
fn merge_keeps_the_tokens_of_the_left_side() {
    let left = Tokens::default()
        .with_word(String::from("a"), 10)
        .with_word(String::from("b"), 20);
    let right = Tokens::default()
        .with_word(String::from("b"), 30)
        .with_word(String::from("c"), 40)
        .with_word(String::from("d"), 10)
        .with_word(String::from("e"), 21);

    let merged = left.merge(right);

    assert_eq!(merged.len(), 5);
    assert_eq!(merged.find_token("a"), Some(10));
    assert_eq!(merged.find_token("b"), Some(20));
    assert_eq!(merged.find_token("c"), Some(40));
    assert_eq!(merged.find_token("e"), Some(21));

    let d = merged.find_token("d").unwrap();
    assert!(d != START_TOKEN && d != END_TOKEN);
    assert!(d != 10 && d != 20 && d != 40 && d != 21);
    assert_eq!(merged.find_word(d), Some("d"));
}

#[test]
fn detokenize_joins_words_with_spaces() {
    let tokens = Tokens::default()
        .with_word(String::from("hello,"), 5)
        .with_word(String::from("world!"), 6);

    assert_eq!(tokens.detokenize_message(&[]).unwrap(), "");
    assert_eq!(tokens.detokenize_message(&[6]).unwrap(), "world!");
    assert_eq!(
        tokens.detokenize_message(&[START_TOKEN, 5, 6, END_TOKEN]).unwrap(),
        "<START> hello, world! <END>"
    );
    assert_eq!(tokens.detokenize_message(&[5, 9, 8]).unwrap_err(), UnknownToken(9));
}

#[test]
fn merged_vocabulary_is_no_smaller_than_either_side() {
    let left = Tokens::default()
        .with_word(String::from("a"), 1)
        .with_word(String::from("b"), 2)
        .with_word(String::from("c"), 3);
    let right = Tokens::default()
        .with_word(String::from("c"), 1)
        .with_word(String::from("d"), 2);

    let merged = left.merge(right);

    assert_eq!(merged.len(), 4);
    assert_eq!(merged.find_token("a"), Some(1));
    assert_eq!(merged.find_token("b"), Some(2));
    assert_eq!(merged.find_token("c"), Some(3));

    let d = merged.find_token("d").unwrap();

    assert!(d != 1 && d != 2 && d != 3 && d != START_TOKEN && d != END_TOKEN);

    let entries: Vec<(String, u64)> = vec![
        (String::from("a"), 1),
        (String::from("b"), 2),
        (String::from("c"), 3),
        (String::from("d"), d),
    ];

    assert_eq!(merged.entries(), &entries);
}

#[test]
fn many_words_are_found_again() {
    let lines = (0..40)
        .map(|line| (0..50).map(|word| format!("w{}", (line * 37 + word * 11) % 700)).collect::<Vec<_>>().join(" "))
        .collect::<Vec<String>>();

    let messages = Messages::parse_from_lines(&lines);
    let tokens = Tokens::parse_from_messages(&messages);

    let mut words = HashSet::new();
    let mut ids = HashSet::new();

    for message in messages.messages() {
        for word in message {
            let token = tokens.find_token(word).unwrap();

            assert!(token != START_TOKEN && token != END_TOKEN);
            assert_eq!(tokens.find_word(token), Some(word.as_str()));

            words.insert(word.clone());
            ids.insert(token);
        }
    }

    assert_eq!(tokens.len(), words.len());
    assert_eq!(ids.len(), words.len());
    assert_eq!(messages.messages().len(), 40);
}
