use markov_chains::ngram::{Bigram, Trigram, Unigram, END_TOKEN, START_TOKEN};

#[test]
fn unigram() {
    assert_eq!(&Unigram::construct(&[]), &[
        Unigram::start(),
        Unigram::new([END_TOKEN])
    ]);

    assert_eq!(&Unigram::construct(&[1]), &[
        Unigram::start(),
        Unigram::new([1]),
        Unigram::new([END_TOKEN])
    ]);

    assert_eq!(&Unigram::construct(&[1, 2]), &[
        Unigram::start(),
        Unigram::new([1]),
        Unigram::new([2]),
        Unigram::new([END_TOKEN])
    ]);

    assert_eq!(&Unigram::construct(&[1, 2, 3]), &[
        Unigram::start(),
        Unigram::new([1]),
        Unigram::new([2]),
        Unigram::new([3]),
        Unigram::new([END_TOKEN])
    ]);
}

#[test]
fn bigram() {
    assert_eq!(&Bigram::construct(&[]), &[
        Bigram::start(),
        Bigram::new([START_TOKEN, END_TOKEN]),
        Bigram::new([END_TOKEN, END_TOKEN])
    ]);

    assert_eq!(&Bigram::construct(&[1]), &[
        Bigram::start(),
        Bigram::new([START_TOKEN, 1]),
        Bigram::new([1, END_TOKEN]),
        Bigram::new([END_TOKEN, END_TOKEN])
    ]);

    assert_eq!(&Bigram::construct(&[1, 2]), &[
        Bigram::start(),
        Bigram::new([START_TOKEN, 1]),
        Bigram::new([1, 2]),
        Bigram::new([2, END_TOKEN]),
        Bigram::new([END_TOKEN, END_TOKEN])
    ]);

    assert_eq!(&Bigram::construct(&[1, 2, 3]), &[
        Bigram::start(),
        Bigram::new([START_TOKEN, 1]),
        Bigram::new([1, 2]),
        Bigram::new([2, 3]),
        Bigram::new([3, END_TOKEN]),
        Bigram::new([END_TOKEN, END_TOKEN])
    ]);
}

#[test]
fn trigram() {
    assert_eq!(&Trigram::construct(&[]), &[
        Trigram::start(),
        Trigram::new([START_TOKEN, START_TOKEN, END_TOKEN]),
        Trigram::new([START_TOKEN, END_TOKEN, END_TOKEN]),
        Trigram::new([END_TOKEN, END_TOKEN, END_TOKEN])
    ]);

    assert_eq!(&Trigram::construct(&[1]), &[
        Trigram::start(),
        Trigram::new([START_TOKEN, START_TOKEN, 1]),
        Trigram::new([START_TOKEN, 1, END_TOKEN]),
        Trigram::new([1, END_TOKEN, END_TOKEN]),
        Trigram::new([END_TOKEN, END_TOKEN, END_TOKEN])
    ]);

    assert_eq!(&Trigram::construct(&[1, 2]), &[
        Trigram::start(),
        Trigram::new([START_TOKEN, START_TOKEN, 1]),
        Trigram::new([START_TOKEN, 1, 2]),
        Trigram::new([1, 2, END_TOKEN]),
        Trigram::new([2, END_TOKEN, END_TOKEN]),
        Trigram::new([END_TOKEN, END_TOKEN, END_TOKEN])
    ]);

    assert_eq!(&Trigram::construct(&[1, 2, 3]), &[
        Trigram::start(),
        Trigram::new([START_TOKEN, START_TOKEN, 1]),
        Trigram::new([START_TOKEN, 1, 2]),
        Trigram::new([1, 2, 3]),
        Trigram::new([2, 3, END_TOKEN]),
        Trigram::new([3, END_TOKEN, END_TOKEN]),
        Trigram::new([END_TOKEN, END_TOKEN, END_TOKEN])
    ]);
}

#[test]
fn construct() {
    let tokens = &[
        vec![],
        vec![1],
        vec![1, 2],
        vec![1, 2, 3],
        vec![1, 2, 3, 4],
        vec![1, 2, 3, 4, 5]
    ];

    for tokens in tokens {
        assert_eq!(&Unigram::deconstruct(&Unigram::construct(tokens)), tokens);
        assert_eq!(&Bigram::deconstruct(&Bigram::construct(tokens)), tokens);
        assert_eq!(&Trigram::deconstruct(&Trigram::construct(tokens)), tokens);
    }
}

#[test]
fn tailless_windows() {
    assert_eq!(&Unigram::construct_tailless(&[]), &[Unigram::start()]);
    assert_eq!(&Bigram::construct_tailless(&[1, 2]), &[
        Bigram::start(),
        Bigram::new([START_TOKEN, 1]),
        Bigram::new([1, 2])
    ]);
    assert_eq!(&Trigram::construct_tailless(&[7]), &[
        Trigram::start(),
        Trigram::new([START_TOKEN, START_TOKEN, 7])
    ]);
}

#[test]
fn tailless_reads_back_a_prefix() {
    let tokens: Vec<u64> = vec![4, 5, 6];
    assert_eq!(Unigram::deconstruct(&Unigram::construct_tailless(&tokens)), vec![4, 5]);
    assert_eq!(Bigram::deconstruct(&Bigram::construct_tailless(&tokens)), vec![4, 5]);
    assert_eq!(Trigram::deconstruct(&Trigram::construct_tailless(&tokens)), vec![4, 5]);
    let empty: Vec<u64> = vec![];
    assert_eq!(Trigram::deconstruct(&Trigram::construct_tailless(&empty)), empty);
}

#[test]
fn padding_in_a_sentence_is_not_read_back() {
    let with_start: Vec<u64> = vec![START_TOKEN, 5];
    assert_eq!(Unigram::deconstruct(&Unigram::construct(&with_start)), vec![5]);
    let with_end: Vec<u64> = vec![5, END_TOKEN, 6];
    assert_eq!(Bigram::deconstruct(&Bigram::construct(&with_end)), vec![5]);
}

#[test]
fn ngram_helpers() {
    let start = Bigram::start();
    assert!(start.is_start());
    assert!(start.contains_start());
    assert!(!start.is_end());
    assert!(!start.contains_end());
    let tail = Bigram::new([3, END_TOKEN]);
    assert!(!tail.is_end());
    assert!(tail.contains_end());
    assert_eq!(tail.emitted_token(), END_TOKEN);
    assert_eq!(tail.token(), END_TOKEN);
    assert_eq!(Bigram::new([7, END_TOKEN]).token(), END_TOKEN);
    let end = Bigram::new([END_TOKEN, END_TOKEN]);
    assert!(end.is_end());
    let plain = Trigram::new([1, 2, 3]);
    assert_eq!(plain.token(), 3);
    assert_eq!(plain.emitted_token(), 3);
    assert_eq!(plain.head(), &[1, 2]);
    assert_eq!(plain.tail(), &[2, 3]);
    assert_eq!(Unigram::new([END_TOKEN]).token(), END_TOKEN);
}
