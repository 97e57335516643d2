use markov_chains::messages::Messages;
use markov_chains::tokenized_messages::TokenizedMessages;
use markov_chains::tokens::Tokens;

#[test]
fn tokenize() {
    let messages = Messages::parse_from_lines(&[
        String::from("Hello, World!"),
        String::from("Example text")
    ]);

    let tokens = Tokens::parse_from_messages(&messages);

    let tokenized = TokenizedMessages::tokenize_message(&messages, &tokens).unwrap();

    let hello = tokens.find_token("hello,").unwrap();
    let world = tokens.find_token("world!").unwrap();
    let example = tokens.find_token("example").unwrap();
    let text = tokens.find_token("text").unwrap();

    assert!(tokenized.messages().contains(&vec![hello, world]));
    assert!(tokenized.messages().contains(&vec![example, text]));
}

#[test]
fn tokenize_fails_on_the_first_unknown_word() {
    let messages = Messages::parse_from_lines(&[
        String::from("a b"),
        String::from("a x y"),
        String::from("z")
    ]);

    let tokens = Tokens::default()
        .with_word(String::from("a"), 1)
        .with_word(String::from("b"), 2);

    let unknown = TokenizedMessages::tokenize_message(&messages, &tokens).unwrap_err();

    assert_eq!(unknown.0, "x");
}

#[test]
fn sentences_are_kept_once_and_in_order() {
    let sentences = TokenizedMessages::default()
        .with_sentence(vec![1, 2])
        .with_sentence(vec![3])
        .with_sentence(vec![1, 2])
        .with_sentence(vec![]);

    let expected: Vec<Vec<u64>> = vec![vec![1, 2], vec![3], vec![]];

    assert_eq!(sentences.messages(), &expected);
}
