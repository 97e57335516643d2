use markov_chains::messages::Messages;

#[test]
fn parse() {
    let messages = Messages::parse_from_lines(&[
        String::from("Hello, World!"),
        String::from("Example text")
    ]);

    assert!(messages.messages().contains(&vec![
        String::from("hello,"),
        String::from("world!")
    ]));

    assert!(messages.messages().contains(&vec![
        String::from("example"),
        String::from("text")
    ]));
}

#[test]
fn messages_merging() {
    let messages = Messages::default()
        .merge(Messages::parse_from_lines(&[
            String::from("Hello, World!")
        ]))
        .merge(Messages::parse_from_lines(&[
            String::from("Example text")
        ]));

    assert!(messages.messages().contains(&vec![
        String::from("hello,"),
        String::from("world!")
    ]));

    assert!(messages.messages().contains(&vec![
        String::from("example"),
        String::from("text")
    ]));
}

#[test]
fn lines_are_trimmed_unescaped_and_deduplicated() {
    let messages = Messages::parse_from_lines(&[
        String::from("  Hello,   World!  "),
        String::from(""),
        String::from("   "),
        String::from("\"Quoted\\tTEXT\\u0041\""),
        String::from("hello, world!"),
        String::from("\"unfinished")
    ]);

    let expected: Vec<Vec<String>> = vec![
        vec![String::from("hello,"), String::from("world!")],
        vec![String::from("quoted"), String::from("texta")],
        vec![String::from("\"unfinished")],
    ];

    assert_eq!(messages.messages(), &expected);
}

#[test]
fn filter_is_applied_to_each_word() {
    let messages = Messages::parse_from_lines_with_filter(
        &[String::from("Ab cD"), String::from("ab cd")],
        |word| word.to_uppercase()
    );

    let expected: Vec<Vec<String>> = vec![vec![String::from("AB"), String::from("CD")]];

    assert_eq!(messages.messages(), &expected);
}

#[test]
fn merge_keeps_order_and_drops_duplicates() {
    let left = Messages::parse_from_lines(&[String::from("a b"), String::from("c")]);
    let right = Messages::parse_from_lines(&[String::from("c"), String::from("d e"), String::from("a b")]);

    let merged = left.merge(right);

    let expected: Vec<Vec<String>> = vec![
        vec![String::from("a"), String::from("b")],
        vec![String::from("c")],
        vec![String::from("d"), String::from("e")],
    ];

    assert_eq!(merged.messages(), &expected);

    let grown = merged.with_message(vec![]).with_message(vec![String::from("c")]);

    assert_eq!(grown.messages(), &expected);
}

#[test]
fn whitespace_of_any_script_is_trimmed_before_unescaping() {
    let messages = Messages::parse_from_lines(&[
        String::from("\u{a0}\u{2003}\"Quoted  text\"\u{3000}"),
        String::from("one\u{2003}two\u{a0}three")
    ]);

    let expected: Vec<Vec<String>> = vec![
        vec![String::from("quoted"), String::from("text")],
        vec![String::from("one"), String::from("two"), String::from("three")],
    ];

    assert_eq!(messages.messages(), &expected);
}
