use vstd::prelude::*;
use crate::index::Index;
use crate::index::hash_of_tokens;
use crate::index::hash_tokens;
use crate::messages::Message;
use crate::messages::Messages;
use crate::messages::messages_of;
use crate::messages::words_of;
use crate::tokens::Tokens;

verus! {

/// A sentence as contracts see it: its tokens in order.
pub type Sentence = Seq<u64>;

/// The sentences that a vector of vectors of tokens stands for.
pub open spec fn sentences_of(rows: Seq<Vec<u64>>) -> Seq<Sentence> {
    Seq::new(rows.len(), |i: int| rows[i]@)
}

/// How often `token` stands in `tokens`.
pub open spec fn occurrences(tokens: Seq<u64>, token: u64) -> nat
    decreases tokens.len(),
{
    if tokens.len() == 0 {
        0
    } else {
        occurrences(tokens.drop_last(), token) + if tokens.last() == token {
            1nat
        } else {
            0nat
        }
    }
}

/// How often `token` stands in `tokens`.
pub fn count_occurrences(tokens: &Vec<u64>, token: u64) -> (count: usize)
    ensures
        count == occurrences(tokens@, token),
{
    let mut count: usize = 0;
    let mut i: usize = 0;
    proof {
        assert(tokens@.take(0) =~= Seq::<u64>::empty());
    }
    while i < tokens.len()
        invariant
            i <= tokens.len(),
            count <= i,
            count == occurrences(tokens@.take(i as int), token),
        decreases tokens.len() - i,
    {
        proof {
            assert(tokens@.take(i + 1).drop_last() =~= tokens@.take(i as int));
            assert(tokens@.take(i + 1).last() == tokens@[i as int]);
        }
        if tokens[i] == token {
            count += 1;
        }
        i += 1;
    }
    proof {
        assert(tokens@.take(i as int) =~= tokens@);
    }
    count
}

/// A set of sentences kept in the order of arrival: `sentence` joins
/// `sentences` at the end, unless it is there already.
pub open spec fn insert_sentence(sentences: Seq<Sentence>, sentence: Sentence) -> Seq<Sentence> {
    if sentences.contains(sentence) {
        sentences
    } else {
        sentences.push(sentence)
    }
}

/// `more` inserted into `sentences`, one sentence after the other.
pub open spec fn insert_sentences(sentences: Seq<Sentence>, more: Seq<Sentence>) -> Seq<Sentence>
    decreases more.len(),
{
    if more.len() == 0 {
        sentences
    } else {
        insert_sentence(insert_sentences(sentences, more.drop_last()), more.last())
    }
}

/// Every word of the message has a token.
pub open spec fn known_message(vocabulary: Map<Seq<char>, u64>, message: Message) -> bool {
    forall|j: int| 0 <= j < message.len() ==> vocabulary.contains_key(#[trigger] message[j])
}

/// The tokens of the words of `message`.
pub open spec fn tokenized(vocabulary: Map<Seq<char>, u64>, message: Message) -> Sentence {
    Seq::new(message.len(), |j: int| vocabulary[message[j]])
}

/// The tokens of the words of each of `messages`.
pub open spec fn tokenized_all(vocabulary: Map<Seq<char>, u64>, messages: Seq<Message>) -> Seq<Sentence> {
    Seq::new(messages.len(), |i: int| tokenized(vocabulary, messages[i]))
}

/// `word` is the first word of `messages`, in reading order, without a
/// token.
pub open spec fn first_unknown(vocabulary: Map<Seq<char>, u64>, messages: Seq<Message>, word: Seq<char>) -> bool {
    exists|i: int, j: int|
        {
            &&& 0 <= i < messages.len()
            &&& 0 <= j < messages[i].len()
            &&& #[trigger] messages[i][j] == word
            &&& !vocabulary.contains_key(word)
            &&& forall|k: int| 0 <= k < i ==> known_message(vocabulary, #[trigger] messages[k])
            &&& forall|k: int| 0 <= k < j ==> vocabulary.contains_key(#[trigger] messages[i][k])
        }
}

/// Inserting sentences into distinct sentences keeps them distinct and in
/// their places.
pub proof fn lemma_insert_sentences_distinct(sentences: Seq<Sentence>, more: Seq<Sentence>)
    requires
        sentences.no_duplicates(),
    ensures
        insert_sentences(sentences, more).no_duplicates(),
        sentences.is_prefix_of(insert_sentences(sentences, more)),
    decreases more.len(),
{
    if more.len() > 0 {
        lemma_insert_sentences_distinct(sentences, more.drop_last());
    }
}

/// The hashes of the sentences, each at the place of its sentence.
pub open spec fn sentence_hashes(sentences: Seq<Sentence>) -> Seq<u64> {
    Seq::new(sentences.len(), |i: int| hash_of_tokens(sentences[i]))
}

/// Whether two sentences hold the same tokens.
fn same_tokens(left: &Vec<u64>, right: &Vec<u64>) -> (same: bool)
    ensures
        same == (left@ == right@),
{
    if left.len() != right.len() {
        return false;
    }
    let mut i: usize = 0;
    while i < left.len()
        invariant
            i <= left.len(),
            left.len() == right.len(),
            forall|k: int| 0 <= k < i ==> left@[k] == right@[k],
        decreases left.len() - i,
    {
        if left[i] != right[i] {
            return false;
        }
        i += 1;
    }
    proof {
        assert(left@ =~= right@);
    }
    true
}

/// Whether `rows` holds `sentence` at one of `places`.
fn holds_among(rows: &Vec<Vec<u64>>, places: &Vec<usize>, sentence: &Vec<u64>) -> (found: bool)
    requires
        forall|k: int| 0 <= k < places.len() ==> (#[trigger] places@[k]) < rows.len(),
    ensures
        found ==> sentences_of(rows@).contains(sentence@),
        !found ==> forall|k: int|
            0 <= k < places.len() ==> sentences_of(rows@)[(#[trigger] places@[k]) as int] != sentence@,
{
    let mut k: usize = 0;
    while k < places.len()
        invariant
            k <= places.len(),
            forall|j: int| 0 <= j < places.len() ==> (#[trigger] places@[j]) < rows.len(),
            forall|j: int| 0 <= j < k ==> sentences_of(rows@)[(#[trigger] places@[j]) as int] != sentence@,
        decreases places.len() - k,
    {
        let place = places[k];
        if same_tokens(&rows[place], sentence) {
            proof {
                assert(sentences_of(rows@)[place as int] == sentence@);
            }
            return true;
        }
        k += 1;
    }
    false
}

/// Whether `rows` holds the sentence `sentence`, whose hash is `hash`.
fn holds(rows: &Vec<Vec<u64>>, index: &Index, sentence: &Vec<u64>, hash: u64) -> (found: bool)
    requires
        index.indexes(sentence_hashes(sentences_of(rows@))),
        hash == hash_of_tokens(sentence@),
    ensures
        found == sentences_of(rows@).contains(sentence@),
{
    let ghost sentences = sentences_of(rows@);
    let ghost hashes = sentence_hashes(sentences);
    let found = match index.places(hash) {
        Some(places) => {
            proof {
                assert forall|k: int| 0 <= k < places.len() implies (#[trigger] places@[k]) < rows.len() by {
                    assert(index.bucket(hash)[k] < hashes.len());
                }
            }
            holds_among(rows, places, sentence)
        },
        None => false,
    };
    proof {
        if !found && sentences.contains(sentence@) {
            let i = sentences.index_of(sentence@);
            assert(hashes[i] == hash);
            assert(index.bucket(hashes[i]).contains(i as usize));
            let k = index.bucket(hash).index_of(i as usize);
            assert(sentences[index.bucket(hash)[k] as int] == sentence@);
        }
    }
    found
}

/// Inserts `sentence` into the rows of a sentence set.
fn insert_row(rows: &mut Vec<Vec<u64>>, index: &mut Index, sentence: Vec<u64>)
    requires
        old(index).indexes(sentence_hashes(sentences_of(old(rows)@))),
    ensures
        final(index).indexes(sentence_hashes(sentences_of(final(rows)@))),
        sentences_of(final(rows)@) == insert_sentence(sentences_of(old(rows)@), sentence@),
{
    let hash = hash_tokens(sentence.as_slice());
    if !holds(rows, index, &sentence, hash) {
        let ghost before = *index;
        let ghost sentences = sentences_of(rows@);
        index.add(hash, rows.len());
        rows.push(sentence);
        proof {
            assert(sentences_of(rows@) =~= sentences.push(sentence@));
            assert(sentence_hashes(sentences_of(rows@)) =~= sentence_hashes(sentences).push(hash));
            Index::lemma_add(before, *index, sentence_hashes(sentences), hash);
        }
    }
}

/// A word that a message held and the vocabulary lacks.
#[derive(Debug)]
pub struct UnknownWord(pub String);

/// A set of sentences, each a sequence of tokens, kept in the order in which
/// they were first seen.
#[derive(Debug)]
pub struct TokenizedMessages {
    pub(crate) messages: Vec<Vec<u64>>,
    pub(crate) index: Index,
}

impl TokenizedMessages {
    /// No sentence occurs twice, and every sentence is found at its place.
    #[verifier::type_invariant]
    pub open(crate) spec fn wf(self) -> bool {
        &&& sentences_of(self.messages@).no_duplicates()
        &&& self.index.indexes(sentence_hashes(sentences_of(self.messages@)))
    }

    /// The sentences, in the order in which they were first seen.
    pub open(crate) spec fn contents(self) -> Seq<Sentence> {
        sentences_of(self.messages@)
    }

    /// The sentences that the messages give when each word is replaced by
    /// its token. Fails on the first word that has none.
    pub fn tokenize_message(messages: &Messages, tokens: &Tokens) -> (tokenized: Result<Self, UnknownWord>)
        ensures
            match tokenized {
                Ok(sentences) => {
                    &&& forall|i: int|
                        0 <= i < messages.contents().len() ==> known_message(
                            tokens.word_token(),
                            #[trigger] messages.contents()[i],
                        )
                    &&& sentences.contents() == insert_sentences(
                        Seq::empty(),
                        tokenized_all(tokens.word_token(), messages.contents()),
                    )
                    &&& sentences.wf()
                },
                Err(unknown) => first_unknown(tokens.word_token(), messages.contents(), unknown.0@),
            },
    {
        let rows = messages.messages();
        let ghost all = messages_of(rows@);
        let ghost vocabulary = tokens.word_token();
        let mut found: Vec<Vec<u64>> = Vec::new();
        let mut index = Index::new();
        let mut i: usize = 0;
        proof {
            assert(sentences_of(found@) =~= Seq::<Sentence>::empty());
            assert(sentence_hashes(sentences_of(found@)) =~= Seq::<u64>::empty());
            assert(tokenized_all(vocabulary, all).take(0) =~= Seq::<Sentence>::empty());
        }
        while i < rows.len()
            invariant
                i <= rows.len(),
                all == messages_of(rows@),
                all == messages.contents(),
                vocabulary == tokens.word_token(),
                forall|k: int| 0 <= k < i ==> known_message(vocabulary, #[trigger] all[k]),
                index.indexes(sentence_hashes(sentences_of(found@))),
                sentences_of(found@) == insert_sentences(
                    Seq::empty(),
                    tokenized_all(vocabulary, all).take(i as int),
                ),
            decreases rows.len() - i,
        {
            let row = &rows[i];
            let ghost message = words_of(row@);
            let mut sentence: Vec<u64> = Vec::new();
            let mut j: usize = 0;
            while j < row.len()
                invariant
                    j <= row.len(),
                    i < rows.len(),
                    all == messages_of(rows@),
                    all == messages.contents(),
                    message == words_of(row@),
                    message == all[i as int],
                    vocabulary == tokens.word_token(),
                    forall|k: int| 0 <= k < i ==> known_message(vocabulary, #[trigger] all[k]),
                    sentence.len() == j,
                    forall|k: int| 0 <= k < j ==> vocabulary.contains_key(#[trigger] message[k]),
                    forall|k: int| 0 <= k < j ==> sentence@[k] == vocabulary[message[k]],
                decreases row.len() - j,
            {
                match tokens.find_token(row[j].as_str()) {
                    Some(token) => {
                        sentence.push(token);
                    },
                    None => {
                        let unknown = UnknownWord(row[j].clone());
                        proof {
                            let contents = messages.contents();
                            let word = unknown.0@;
                            assert(contents[i as int][j as int] == word);
                            assert(!vocabulary.contains_key(word));
                            assert(forall|k: int|
                                0 <= k < j ==> vocabulary.contains_key(#[trigger] contents[i as int][k]));
                            assert(forall|k: int|
                                0 <= k < i ==> known_message(vocabulary, #[trigger] contents[k]));
                        }
                        return Err(unknown);
                    },
                }
                j += 1;
            }
            proof {
                let mapped = tokenized_all(vocabulary, all);
                assert(sentence@ =~= tokenized(vocabulary, message));
                assert(mapped.take(i + 1).drop_last() =~= mapped.take(i as int));
                assert(mapped.take(i + 1).last() == sentence@);
            }
            insert_row(&mut found, &mut index, sentence);
            i += 1;
        }
        proof {
            let mapped = tokenized_all(vocabulary, all);
            assert(mapped.take(i as int) =~= mapped);
            lemma_insert_sentences_distinct(Seq::empty(), mapped);
        }
        Ok(TokenizedMessages { messages: found, index })
    }

    /// The sentences, in the order in which they were first seen, none of
    /// them twice.
    pub fn messages(&self) -> (rows: &Vec<Vec<u64>>)
        ensures
            sentences_of(rows@) == self.contents(),
            sentences_of(rows@).no_duplicates(),
    {
        proof {
            use_type_invariant(self);
        }
        &self.messages
    }

    /// This set with `sentence` inserted.
    pub fn with_sentence(self, sentence: Vec<u64>) -> (joined: Self)
        ensures
            joined.contents() == insert_sentence(self.contents(), sentence@),
    {
        proof {
            use_type_invariant(&self);
        }
        let mut rows = self.messages;
        let mut index = self.index;
        insert_row(&mut rows, &mut index, sentence);
        TokenizedMessages { messages: rows, index }
    }
}

impl Default for TokenizedMessages {
    fn default() -> (empty: Self)
        ensures
            empty.contents() == Seq::<Sentence>::empty(),
    {
        let rows: Vec<Vec<u64>> = Vec::new();
        proof {
            assert(sentences_of(rows@) =~= Seq::<Sentence>::empty());
            assert(sentence_hashes(sentences_of(rows@)) =~= Seq::<u64>::empty());
        }
        TokenizedMessages { messages: rows, index: Index::new() }
    }
}

} // verus!
