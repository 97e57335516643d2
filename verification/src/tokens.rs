use vstd::prelude::*;
use std::collections::HashMap;
use vstd::set_lib::lemma_int_range;
use vstd::set_lib::lemma_len_subset;
use vstd::set_lib::set_int_range;
use vstd::string::StringExecFns;
use crate::index::Index;
use crate::index::hash_of_word;
use crate::index::hash_word;
use crate::messages::Message;
use crate::messages::Messages;
use crate::messages::Word;
use crate::messages::lowered;
use crate::messages::messages_of;
use crate::messages::nonempty;
use crate::messages::words_of;
use crate::ngram::END_TOKEN;
use crate::ngram::START_TOKEN;
use crate::random::random_number;
use crate::text::pieces_of;
use crate::text::split_whitespace;
use crate::text::to_lowercase;

verus! {

broadcast use vstd::std_specs::hash::group_hash_axioms;

/// The word that the start token is written as.
pub const START_TOKEN_NAME: &'static str = "<START>";

/// The word that the end token is written as.
pub const END_TOKEN_NAME: &'static str = "<END>";

/// A token that stands for a word: neither of the two padding tokens.
pub open spec fn is_word_token(token: u64) -> bool {
    token != START_TOKEN && token != END_TOKEN
}

/// `words` and `ids`, taken pairwise, map words to tokens one to one, and no
/// token is a padding token.
pub open spec fn is_vocabulary(words: Seq<Word>, ids: Seq<u64>) -> bool {
    &&& words.len() == ids.len()
    &&& words.no_duplicates()
    &&& ids.no_duplicates()
    &&& forall|i: int| 0 <= i < ids.len() ==> is_word_token(#[trigger] ids[i])
}

/// The words of a list of entries, in order.
pub open spec fn entry_words(entries: Seq<(String, u64)>) -> Seq<Word> {
    Seq::new(entries.len(), |i: int| entries[i].0@)
}

/// The tokens of a list of entries, in order.
pub open spec fn entry_ids(entries: Seq<(String, u64)>) -> Seq<u64> {
    Seq::new(entries.len(), |i: int| entries[i].1)
}

/// The token that a new word gets when `candidate` is proposed for it:
/// `candidate` itself where it is a word token that no word has, else the
/// least token from one up that no word has.
pub open spec fn assigned(ids: Seq<u64>, candidate: u64, token: u64) -> bool {
    if is_word_token(candidate) && !ids.contains(candidate) {
        token == candidate
    } else {
        &&& 1 <= token
        &&& !ids.contains(token)
        &&& forall|lower: u64| 1 <= lower < token ==> ids.contains(lower)
    }
}

/// The word at the place `k` has the token that `wanted` has for it, or a
/// word before it has that token.
pub open spec fn keeps_or_yields(wanted: Map<Word, u64>, words: Seq<Word>, ids: Seq<u64>, k: int) -> bool {
    &&& wanted.contains_key(words[k])
    &&& ids[k] == wanted[words[k]] || ids.take(k).contains(wanted[words[k]])
}

/// The number of tokens that can stand for a word: all but the two padding
/// tokens. A vocabulary that holds as many words takes no more.
pub open spec fn capacity() -> nat {
    (u64::MAX - 1) as nat
}

/// The words of `messages` in the order in which they first occur, after
/// those of `known`.
pub open spec fn first_seen(known: Seq<Word>, messages: Seq<Message>) -> Seq<Word>
    decreases messages.len(),
{
    if messages.len() == 0 {
        known
    } else {
        first_seen_in(first_seen(known, messages.drop_last()), messages.last())
    }
}

/// The words of `message` in the order in which they first occur, after
/// those of `known`; no more of them than there are tokens for.
pub open spec fn first_seen_in(known: Seq<Word>, message: Message) -> Seq<Word>
    decreases message.len(),
{
    if message.len() == 0 {
        known
    } else {
        let before = first_seen_in(known, message.drop_last());
        if before.contains(message.last()) || before.len() >= capacity() {
            before
        } else {
            before.push(message.last())
        }
    }
}

/// When every token from `1` up to (not including) `bound` is among `ids`,
/// there are at least `bound - 1` of them.
proof fn lemma_taken_below(ids: Seq<u64>, bound: int)
    requires
        1 <= bound <= u64::MAX + 1,
        forall|lower: u64| 1 <= lower < bound ==> ids.contains(lower),
    ensures
        bound - 1 <= ids.len(),
{
    let numbers = ids.map_values(|id: u64| id as int);
    let range = set_int_range(1, bound);
    lemma_int_range(1, bound);
    numbers.lemma_cardinality_of_set();
    assert forall|number: int| range.contains(number) implies numbers.to_set().contains(number) by {
        let lower = number as u64;
        assert(ids.contains(lower));
        let at = ids.index_of(lower);
        assert(numbers[at] == number);
    }
    lemma_len_subset(range, numbers.to_set());
}

/// Adding the words of `message` to the distinct words `known` keeps the
/// words distinct and in their places, and leaves no word of `message` out
/// while there are tokens left.
pub proof fn lemma_first_seen_in(known: Seq<Word>, message: Message)
    requires
        known.no_duplicates(),
    ensures
        first_seen_in(known, message).no_duplicates(),
        known.is_prefix_of(first_seen_in(known, message)),
        forall|j: int|
            0 <= j < message.len() ==> first_seen_in(known, message).contains(#[trigger] message[j])
                || first_seen_in(known, message).len() >= capacity(),
        forall|word: Word|
            first_seen_in(known, message).contains(word) ==> known.contains(word) || message.contains(word),
    decreases message.len(),
{
    if message.len() > 0 {
        let shorter = message.drop_last();
        let before = first_seen_in(known, shorter);
        let after = first_seen_in(known, message);
        lemma_first_seen_in(known, shorter);
        assert forall|j: int| 0 <= j < message.len() implies after.contains(#[trigger] message[j]) || after.len()
            >= capacity() by {
            if after.len() < capacity() {
                if j < shorter.len() {
                    assert(before.contains(shorter[j]));
                    let at = before.index_of(shorter[j]);
                    assert(after[at] == message[j]);
                } else if !before.contains(message.last()) {
                    assert(after[before.len() as int] == message[j]);
                }
            }
        }
        assert forall|word: Word| after.contains(word) implies known.contains(word) || message.contains(
            word,
        ) by {
            let at = after.index_of(word);
            if at < before.len() {
                assert(before.contains(word));
                if !known.contains(word) {
                    let from = shorter.index_of(word);
                    assert(message[from] == word);
                }
            } else {
                assert(message[message.len() - 1] == word);
            }
        }
    }
}

/// A vocabulary holds no more words than there are tokens for.
pub proof fn lemma_vocabulary_bound(words: Seq<Word>, ids: Seq<u64>)
    requires
        is_vocabulary(words, ids),
    ensures
        ids.len() <= capacity(),
{
    let numbers = ids.map_values(|id: u64| id as int);
    let range = set_int_range(1, u64::MAX as int);
    lemma_int_range(1, u64::MAX as int);
    assert(numbers.no_duplicates()) by {
        assert forall|i: int, j: int| 0 <= i < j < numbers.len() implies numbers[i] != numbers[j] by {
            assert(ids[i] != ids[j]);
        }
    }
    numbers.unique_seq_to_set();
    assert(numbers.to_set().subset_of(range)) by {
        assert forall|number: int| numbers.to_set().contains(number) implies range.contains(number) by {
            let at = numbers.index_of(number);
            assert(is_word_token(ids[at]));
        }
    }
    lemma_len_subset(numbers.to_set(), range);
}

/// Distinct words that all occur among other distinct words are no more
/// than those.
proof fn lemma_no_more_words(few: Seq<Word>, many: Seq<Word>)
    requires
        few.no_duplicates(),
        forall|j: int| 0 <= j < few.len() ==> many.contains(#[trigger] few[j]),
    ensures
        few.len() <= many.len(),
{
    few.unique_seq_to_set();
    many.lemma_cardinality_of_set();
    assert(few.to_set().subset_of(many.to_set())) by {
        assert forall|word: Word| few.to_set().contains(word) implies many.to_set().contains(word) by {
            let at = few.index_of(word);
            assert(many.contains(few[at]));
        }
    }
    lemma_len_subset(few.to_set(), many.to_set());
}

/// The hashes of the words, each at the place of its word.
pub open spec fn word_hashes(words: Seq<Word>) -> Seq<u64> {
    Seq::new(words.len(), |i: int| hash_of_word(words[i]))
}

/// `places` gives each token its place among `ids`, and gives no other
/// token a place.
pub open spec fn token_places(places: Map<u64, usize>, ids: Seq<u64>) -> bool {
    &&& forall|i: int| 0 <= i < ids.len() ==> places.contains_key(#[trigger] ids[i]) && places[ids[i]] == i
    &&& forall|token: u64| #[trigger]
        places.contains_key(token) ==> places[token] < ids.len() && ids[places[token] as int] == token
}

/// The first of `places` at which `list` holds `word`.
fn find_among(list: &Vec<(String, u64)>, places: &Vec<usize>, word: &String) -> (at: Option<usize>)
    requires
        forall|k: int| 0 <= k < places.len() ==> (#[trigger] places@[k]) < list.len(),
    ensures
        match at {
            Some(place) => place < list.len() && entry_words(list@)[place as int] == word@,
            None => forall|k: int|
                0 <= k < places.len() ==> entry_words(list@)[(#[trigger] places@[k]) as int] != word@,
        },
{
    let mut k: usize = 0;
    while k < places.len()
        invariant
            k <= places.len(),
            forall|j: int| 0 <= j < places.len() ==> (#[trigger] places@[j]) < list.len(),
            forall|j: int| 0 <= j < k ==> entry_words(list@)[(#[trigger] places@[j]) as int] != word@,
        decreases places.len() - k,
    {
        let place = places[k];
        if list[place].0 == *word {
            return Some(place);
        }
        k += 1;
    }
    None
}

/// The entries of a vocabulary, with what finds a word or a token among
/// them without a search through all of them.
#[derive(Debug)]
pub struct Entries {
    pub(crate) list: Vec<(String, u64)>,
    pub(crate) by_word: Index,
    pub(crate) by_token: HashMap<u64, usize>,
}

impl Entries {
    /// The words, in the order in which they came.
    pub open(crate) spec fn words(self) -> Seq<Word> {
        entry_words(self.list@)
    }

    /// The tokens, each at the place of its word.
    pub open(crate) spec fn ids(self) -> Seq<u64> {
        entry_ids(self.list@)
    }

    /// Words and tokens stand one to one, no token is a padding token, and
    /// every word and every token is found at its place.
    pub open(crate) spec fn wf(self) -> bool {
        &&& is_vocabulary(self.words(), self.ids())
        &&& self.by_word.indexes(word_hashes(self.words()))
        &&& token_places(self.by_token@, self.ids())
    }

    /// No entries.
    fn new() -> (entries: Self)
        ensures
            entries.wf(),
            entries.words() == Seq::<Word>::empty(),
            entries.list@.len() == 0,
    {
        let entries = Entries { list: Vec::new(), by_word: Index::new(), by_token: HashMap::new() };
        proof {
            assert(entries.words() =~= Seq::<Word>::empty());
            assert(word_hashes(entries.words()) =~= Seq::<u64>::empty());
        }
        entries
    }

    /// Whether there is a token left for one more word.
    fn has_room(&self) -> (room: bool)
        ensures
            room == (self.list.len() < capacity()),
    {
        (self.list.len() as u64) < u64::MAX - 1
    }

    /// The place of `word` among the entries.
    fn position(&self, word: &String) -> (at: Option<usize>)
        requires
            self.wf(),
        ensures
            at.is_some() == self.words().contains(word@),
            at matches Some(index) ==> index < self.list.len() && self.words()[index as int] == word@,
    {
        let ghost words = self.words();
        let ghost hashes = word_hashes(words);
        let hash = hash_word(word.as_str());
        let found = match self.by_word.places(hash) {
            Some(places) => {
                proof {
                    assert forall|k: int| 0 <= k < places.len() implies (#[trigger] places@[k]) < self.list.len() by {
                        assert(self.by_word.bucket(hash)[k] < hashes.len());
                    }
                }
                find_among(&self.list, places, word)
            },
            None => None,
        };
        proof {
            if found.is_none() && words.contains(word@) {
                let i = words.index_of(word@);
                assert(hashes[i] == hash);
                assert(self.by_word.bucket(hashes[i]).contains(i as usize));
                let k = self.by_word.bucket(hash).index_of(i as usize);
                assert(entry_words(self.list@)[self.by_word.bucket(hash)[k] as int] == word@);
            }
            if let Some(place) = found {
                assert(words[place as int] == word@);
            }
        }
        found
    }

    /// The place of `token` among the entries.
    fn position_of_token(&self, token: u64) -> (at: Option<usize>)
        requires
            self.wf(),
        ensures
            at.is_some() == self.ids().contains(token),
            at matches Some(index) ==> index < self.list.len() && self.ids()[index as int] == token,
    {
        match self.by_token.get(&token) {
            Some(place) => {
                proof {
                    assert(self.by_token@.contains_key(token));
                    assert(self.ids()[*place as int] == token);
                }
                Some(*place)
            },
            None => {
                proof {
                    if self.ids().contains(token) {
                        let i = self.ids().index_of(token);
                        assert(self.by_token@.contains_key(self.ids()[i]));
                    }
                }
                None
            },
        }
    }

    /// Gives the new word `word` a token and puts the two at the end of
    /// the entries.
    fn assign(&mut self, word: String, candidate: u64)
        requires
            old(self).wf(),
            !old(self).words().contains(word@),
            old(self).list.len() < u64::MAX - 1,
        ensures
            final(self).wf(),
            final(self).list.len() == old(self).list.len() + 1,
            final(self).words() == old(self).words().push(word@),
            final(self).ids().drop_last() == old(self).ids(),
            assigned(old(self).ids(), candidate, final(self).ids().last()),
    {
        let ghost ids = self.ids();
        let ghost words = self.words();
        let mut token: u64 = candidate;
        if candidate == START_TOKEN || candidate == END_TOKEN || self.position_of_token(candidate).is_some() {
            token = 1;
            while self.position_of_token(token).is_some()
                invariant
                    1 <= token,
                    self.wf(),
                    ids == self.ids(),
                    self.list.len() < u64::MAX - 1,
                    forall|lower: u64| 1 <= lower < token ==> ids.contains(lower),
                decreases u64::MAX - token,
            {
                proof {
                    lemma_taken_below(ids, token + 1);
                }
                token += 1;
            }
            proof {
                lemma_taken_below(ids, token as int);
            }
        }
        let place = self.list.len();
        let hash = hash_word(word.as_str());
        let ghost index_before = self.by_word;
        let ghost places_before = self.by_token@;
        self.by_word.add(hash, place);
        self.by_token.insert(token, place);
        self.list.push((word, token));
        proof {
            assert(self.words() =~= words.push(word@));
            assert(self.ids() =~= ids.push(token));
            assert(self.ids().drop_last() =~= ids);
            assert(word_hashes(self.words()) =~= word_hashes(words).push(hash));
            Index::lemma_add(index_before, self.by_word, word_hashes(words), hash);
            assert(token_places(self.by_token@, self.ids())) by {
                assert forall|i: int| 0 <= i < self.ids().len() implies self.by_token@.contains_key(
                    #[trigger] self.ids()[i],
                ) && self.by_token@[self.ids()[i]] == i by {
                    if i < ids.len() {
                        assert(places_before.contains_key(ids[i]));
                        assert(ids[i] != token);
                    }
                }
            }
        }
    }
}

/// A token that a message held and no word of the vocabulary has.
#[derive(Debug, Clone, Copy, PartialEq, Eq, Structural)]
pub struct UnknownToken(pub u64);

/// A vocabulary: words and the tokens that stand for them, one to one. The
/// two padding tokens stand for no word.
#[derive(Debug)]
pub struct Tokens {
    pub(crate) entries: Entries,
}

/// The words of `tokens` written out, with one space between two words.
/// A padding token is written as its name.
pub open spec fn spelled(vocabulary: Map<u64, Word>, tokens: Seq<u64>) -> Seq<char>
    decreases tokens.len(),
{
    if tokens.len() == 0 {
        Seq::empty()
    } else if tokens.len() == 1 {
        spelled_token(vocabulary, tokens[0])
    } else {
        spelled(vocabulary, tokens.drop_last()) + seq![' '] + spelled_token(vocabulary, tokens.last())
    }
}

/// The word that `token` is written as.
pub open spec fn spelled_token(vocabulary: Map<u64, Word>, token: u64) -> Seq<char> {
    if token == START_TOKEN {
        START_TOKEN_NAME@
    } else if token == END_TOKEN {
        END_TOKEN_NAME@
    } else {
        vocabulary[token]
    }
}

/// `token` can be written as a word: it is a padding token or stands for a
/// word of the vocabulary.
pub open spec fn can_spell(vocabulary: Map<u64, Word>, token: u64) -> bool {
    !is_word_token(token) || vocabulary.contains_key(token)
}

impl Tokens {
    /// The words, in the order in which they came.
    pub open(crate) spec fn words(self) -> Seq<Word> {
        entry_words(self.entries.list@)
    }

    /// The tokens, each at the place of its word.
    pub open(crate) spec fn ids(self) -> Seq<u64> {
        entry_ids(self.entries.list@)
    }

    /// Words and tokens stand one to one, no token is a padding token, and
    /// every word and every token is found at its place.
    #[verifier::type_invariant]
    pub open(crate) spec fn wf(self) -> bool {
        self.entries.wf()
    }

    /// The token of each word.
    pub open spec fn word_token(self) -> Map<Word, u64> {
        Map::new(|word: Word| self.words().contains(word), |word: Word| self.ids()[self.words().index_of(word)])
    }

    /// The word of each token.
    pub open spec fn token_word(self) -> Map<u64, Word> {
        Map::new(|token: u64| self.ids().contains(token), |token: u64| self.words()[self.ids().index_of(token)])
    }

    /// A vocabulary of the words of `messages`, in the order in which they
    /// first occur. Each word gets a random token, or, where that one is
    /// taken, the least free token. Words for which no token is left are
    /// left out.
    pub fn parse_from_messages(messages: &Messages) -> (tokens: Self)
        ensures
            tokens.wf(),
            tokens.words() == first_seen(Seq::empty(), messages.contents()),
            reserves_padding(tokens),
    {
        let mut entries = Entries::new();
        let rows = messages.messages();
        let ghost all = messages_of(rows@);
        let mut i: usize = 0;
        proof {
            assert(all.take(0) =~= Seq::<Message>::empty());
        }
        while i < rows.len()
            invariant
                i <= rows.len(),
                all == messages_of(rows@),
                entries.wf(),
                entries.words() == first_seen(Seq::empty(), all.take(i as int)),
            decreases rows.len() - i,
        {
            let row = &rows[i];
            let ghost message = words_of(row@);
            let ghost base = entries.words();
            let mut j: usize = 0;
            proof {
                assert(all.take(i + 1).drop_last() =~= all.take(i as int));
                assert(all.take(i + 1).last() == message);
                assert(message.take(0) =~= Seq::<Word>::empty());
            }
            while j < row.len()
                invariant
                    j <= row.len(),
                    message == words_of(row@),
                    entries.wf(),
                    entries.words() == first_seen_in(base, message.take(j as int)),
                decreases row.len() - j,
            {
                proof {
                    assert(message.take(j + 1).drop_last() =~= message.take(j as int));
                    assert(message.take(j + 1).last() == row@[j as int]@);
                }
                if entries.position(&row[j]).is_none() && entries.has_room() {
                    entries.assign(row[j].clone(), random_number());
                }
                j += 1;
            }
            proof {
                assert(message.take(j as int) =~= message);
            }
            i += 1;
        }
        let tokens = Tokens { entries };
        proof {
            assert(all.take(i as int) =~= all);
            lemma_padding_reserved(tokens);
        }
        tokens
    }

    /// This vocabulary with the word `word` added, where it is new and a
    /// token is left for it: it gets the token `candidate`, or the least
    /// free token where `candidate` is taken or a padding token.
    pub fn with_word(self, word: String, candidate: u64) -> (grown: Self)
        ensures
            grown.wf(),
            reserves_padding(grown),
            self.words().contains(word@) || self.words().len() >= capacity() ==> grown.words()
                == self.words() && grown.ids() == self.ids(),
            !self.words().contains(word@) && self.words().len() < capacity() ==> {
                &&& grown.words() == self.words().push(word@)
                &&& grown.ids().drop_last() == self.ids()
                &&& assigned(self.ids(), candidate, grown.ids().last())
            },
    {
        proof {
            use_type_invariant(&self);
        }
        let mut entries = self.entries;
        if entries.position(&word).is_none() && entries.has_room() {
            entries.assign(word, candidate);
        }
        let grown = Tokens { entries };
        proof {
            lemma_padding_reserved(grown);
        }
        grown
    }

    /// The union of two vocabularies. Every word of this one keeps its
    /// token. A word that only `tokens` has keeps the token it has there
    /// where that one is free, and gets a random or the least free one
    /// else. Words for which no token is left are left out.
    pub fn merge(self, tokens: Tokens) -> (merged: Self)
        ensures
            merged.wf(),
            reserves_padding(merged),
            forall|token: u64| #[trigger]
                self.token_word().contains_key(token) ==> merged.token_word().contains_key(token)
                    && merged.token_word()[token] == self.token_word()[token],
            merged.words() == first_seen_in(self.words(), tokens.words()),
            merged.ids().take(self.ids().len() as int) == self.ids(),
            merged.spec_len() >= self.spec_len(),
            merged.spec_len() >= tokens.spec_len(),
            forall|word: Word| #[trigger]
                self.word_token().contains_key(word) ==> merged.word_token().contains_key(word)
                    && merged.word_token()[word] == self.word_token()[word],
            forall|word: Word| #[trigger]
                tokens.word_token().contains_key(word) ==> merged.word_token().contains_key(word)
                    || merged.spec_len() >= capacity(),
            forall|k: int|
                self.words().len() <= k < merged.words().len() ==> #[trigger] keeps_or_yields(
                    tokens.word_token(),
                    merged.words(),
                    merged.ids(),
                    k,
                ),
    {
        proof {
            use_type_invariant(&self);
            use_type_invariant(&tokens);
        }
        let mut entries = self.entries;
        let ghost base = entries.words();
        let ghost base_ids = entries.ids();
        let ghost more = entry_words(tokens.entries.list@);
        let mut j: usize = 0;
        proof {
            assert(more.take(0) =~= Seq::<Word>::empty());
            assert(entries.ids().take(base_ids.len() as int) =~= base_ids);
        }
        while j < tokens.entries.list.len()
            invariant
                j <= tokens.entries.list.len(),
                more == entry_words(tokens.entries.list@),
                base.len() == base_ids.len(),
                entries.wf(),
                entries.words() == first_seen_in(base, more.take(j as int)),
                base.len() <= entries.list.len(),
                entries.ids().take(base_ids.len() as int) == base_ids,
                tokens.wf(),
                forall|k: int|
                    base.len() <= k < entries.words().len() ==> #[trigger] keeps_or_yields(
                        tokens.word_token(),
                        entries.words(),
                        entries.ids(),
                        k,
                    ),
            decreases tokens.entries.list.len() - j,
        {
            proof {
                assert(more.take(j + 1).drop_last() =~= more.take(j as int));
                assert(more.take(j + 1).last() == tokens.entries.list@[j as int].0@);
            }
            let entry = &tokens.entries.list[j];
            if entries.position(&entry.0).is_none() && entries.has_room() {
                let ghost before = entries.ids();
                let ghost words_before = entries.words();
                let candidate = if entries.position_of_token(entry.1).is_none() {
                    entry.1
                } else {
                    random_number()
                };
                entries.assign(entry.0.clone(), candidate);
                proof {
                    let wanted = tokens.word_token();
                    let word = entry.0@;
                    let last = words_before.len() as int;
                    assert(entries.ids().take(base_ids.len() as int) =~= before.take(
                        base_ids.len() as int,
                    ));
                    assert(tokens.words()[j as int] == word);
                    assert(tokens.words().index_of(word) == j);
                    assert(tokens.ids()[j as int] == entry.1);
                    assert(wanted.contains_key(word) && wanted[word] == entry.1);
                    assert(entries.ids().take(last) =~= before);
                    assert forall|k: int| base.len() <= k < entries.words().len() implies #[trigger] keeps_or_yields(
                        wanted,
                        entries.words(),
                        entries.ids(),
                        k,
                    ) by {
                        if k < last {
                            assert(keeps_or_yields(wanted, words_before, before, k));
                            assert(entries.words()[k] == words_before[k]);
                            assert(entries.ids()[k] == before[k]);
                            assert(entries.ids().take(k) =~= before.take(k));
                        }
                    }
                }
            }
            j += 1;
        }
        let merged = Tokens { entries };
        proof {
            assert(more.take(j as int) =~= more);
            lemma_first_seen_in(base, more);
            if merged.words().len() >= capacity() {
                lemma_vocabulary_bound(tokens.words(), tokens.ids());
            } else {
                lemma_no_more_words(more, merged.words());
            }
            assert forall|word: Word| #[trigger] self.word_token().contains_key(word) implies merged.word_token().contains_key(
                word,
            ) && merged.word_token()[word] == self.word_token()[word] by {
                let at = base.index_of(word);
                assert(merged.words()[at] == word);
                assert(merged.words().index_of(word) == at);
                assert(merged.ids()[at] == merged.ids().take(base_ids.len() as int)[at]);
            }
            lemma_padding_reserved(merged);
            assert forall|token: u64| #[trigger] self.token_word().contains_key(token) implies merged.token_word().contains_key(
                token,
            ) && merged.token_word()[token] == self.token_word()[token] by {
                let at = base_ids.index_of(token);
                assert(merged.ids()[at] == merged.ids().take(base_ids.len() as int)[at]);
                assert(merged.ids().index_of(token) == at);
                assert(merged.words()[at] == base[at]);
            }
            assert forall|word: Word| #[trigger] tokens.word_token().contains_key(word) implies merged.word_token().contains_key(
                word,
            ) || merged.spec_len() >= capacity() by {
                let at = more.index_of(word);
                assert(merged.words().contains(more[at]) || merged.words().len() >= capacity());
            }
        }
        merged
    }

    /// The token of `word`, where the vocabulary has the word.
    pub fn find_token(&self, word: &str) -> (token: Option<u64>)
        ensures
            token == if self.word_token().contains_key(word@) {
                Some(self.word_token()[word@])
            } else {
                None
            },
    {
        proof {
            use_type_invariant(self);
        }
        let needle = word.to_owned();
        match self.entries.position(&needle) {
            Some(index) => {
                proof {
                    assert(self.words()[index as int] == word@);
                    assert(self.words().index_of(word@) == index);
                }
                Some(self.entries.list[index].1)
            },
            None => None,
        }
    }

    /// The word of `token`, where the vocabulary has the token; the two
    /// padding tokens have their names for words.
    pub fn find_word(&self, token: u64) -> (word: Option<&str>)
        ensures
            match word {
                Some(text) => can_spell(self.token_word(), token) && text@ == spelled_token(
                    self.token_word(),
                    token,
                ),
                None => !can_spell(self.token_word(), token),
            },
    {
        proof {
            use_type_invariant(self);
        }
        if token == START_TOKEN {
            Some(START_TOKEN_NAME)
        } else if token == END_TOKEN {
            Some(END_TOKEN_NAME)
        } else {
            match self.entries.position_of_token(token) {
                Some(index) => {
                    proof {
                        assert(self.ids()[index as int] == token);
                        assert(self.ids().index_of(token) == index);
                    }
                    Some(self.entries.list[index].0.as_str())
                },
                None => None,
            }
        }
    }

    /// The tokens of a prompt: of its words, cut at whitespace and put in
    /// lowercase. Nothing where the vocabulary lacks one of the words.
    pub fn tokenize_prompt(&self, prompt: &str) -> (tokens: Option<Vec<u64>>)
        ensures
            match tokens {
                Some(found) => {
                    &&& found@.len() == prompt_words(prompt@).len()
                    &&& forall|j: int|
                        0 <= j < found.len() ==> self.word_token().contains_key(
                            #[trigger] prompt_words(prompt@)[j],
                        ) && found@[j] == self.word_token()[prompt_words(prompt@)[j]]
                },
                None => exists|j: int|
                    0 <= j < prompt_words(prompt@).len() && !self.word_token().contains_key(
                        #[trigger] prompt_words(prompt@)[j],
                    ),
            },
    {
        let pieces = split_whitespace(prompt);
        let ghost all = words_of(pieces@);
        let ghost words = prompt_words(prompt@);
        let mut found: Vec<u64> = Vec::new();
        let mut j: usize = 0;
        proof {
            assert(all.take(0) =~= Seq::<Word>::empty());
        }
        while j < pieces.len()
            invariant
                j <= pieces.len(),
                all == words_of(pieces@),
                words == lowered(nonempty(all)),
                words == prompt_words(prompt@),
                found.len() == nonempty(all.take(j as int)).len(),
                forall|k: int|
                    0 <= k < found.len() ==> self.word_token().contains_key(
                        #[trigger] lowered(nonempty(all.take(j as int)))[k],
                    ) && found@[k] == self.word_token()[lowered(nonempty(all.take(j as int)))[k]],
            decreases pieces.len() - j,
        {
            let piece = pieces[j].as_str();
            let ghost seen = nonempty(all.take(j as int));
            proof {
                assert(all.take(j + 1).drop_last() =~= all.take(j as int));
                assert(all.take(j + 1).last() == piece@);
            }
            if !piece.is_empty() {
                let word = to_lowercase(piece);
                let ghost now = nonempty(all.take(j + 1));
                proof {
                    assert(now == seen.push(piece@));
                    assert(lowered(now)[seen.len() as int] == word@);
                    assert forall|k: int| 0 <= k < seen.len() implies lowered(now)[k] == lowered(seen)[k] by {
                        assert(now[k] == seen[k]);
                    }
                }
                match self.find_token(word.as_str()) {
                    Some(token) => {
                        found.push(token);
                    },
                    None => {
                        proof {
                            lemma_nonempty_prefix(all, j + 1);
                            let at = seen.len() as int;
                            assert(nonempty(all)[at] == now[at]);
                            assert(0 <= at < words.len());
                            assert(words[at] == word@);
                            assert(!self.word_token().contains_key(prompt_words(prompt@)[at]));
                        }
                        return None;
                    },
                }
            }
            j += 1;
        }
        proof {
            assert(all.take(j as int) =~= all);
        }
        Some(found)
    }

    /// The words with their tokens, in the order in which the words came:
    /// no word and no token twice, and no padding token.
    pub fn entries(&self) -> (entries: &Vec<(String, u64)>)
        ensures
            entry_words(entries@) == self.words(),
            entry_ids(entries@) == self.ids(),
            is_vocabulary(entry_words(entries@), entry_ids(entries@)),
    {
        proof {
            use_type_invariant(self);
        }
        &self.entries.list
    }

    /// The number of words.
    #[verifier::when_used_as_spec(spec_len)]
    pub fn len(&self) -> (count: usize)
        ensures
            count == self.spec_len(),
    {
        self.entries.list.len()
    }

    /// The number of words.
    pub open(crate) spec fn spec_len(&self) -> usize {
        self.entries.list.len()
    }

    /// Whether the vocabulary has no word.
    pub fn is_empty(&self) -> (empty: bool)
        ensures
            empty == (self.words().len() == 0),
    {
        self.entries.list.len() == 0
    }

    /// The words of `tokens`, with one space between two words. Fails on
    /// the first token that is no padding token and stands for no word.
    pub fn detokenize_message(&self, tokens: &[u64]) -> (text: Result<String, UnknownToken>)
        ensures
            match text {
                Ok(string) => {
                    &&& forall|i: int| 0 <= i < tokens.len() ==> can_spell(self.token_word(), tokens@[i])
                    &&& string@ == spelled(self.token_word(), tokens@)
                },
                Err(unknown) => exists|i: int|
                    {
                        &&& 0 <= i < tokens.len()
                        &&& tokens@[i] == unknown.0
                        &&& !can_spell(self.token_word(), tokens@[i])
                        &&& forall|j: int| 0 <= j < i ==> can_spell(self.token_word(), tokens@[j])
                    },
            },
    {
        let mut text = String::new();
        let mut i: usize = 0;
        proof {
            assert(tokens@.take(0) =~= Seq::<u64>::empty());
        }
        while i < tokens.len()
            invariant
                i <= tokens.len(),
                forall|j: int| 0 <= j < i ==> can_spell(self.token_word(), tokens@[j]),
                text@ == spelled(self.token_word(), tokens@.take(i as int)),
            decreases tokens.len() - i,
        {
            let Some(word) = self.find_word(tokens[i]) else {
                return Err(UnknownToken(tokens[i]));
            };
            proof {
                assert(tokens@.take(i + 1).drop_last() =~= tokens@.take(i as int));
                assert(tokens@.take(i + 1).last() == tokens@[i as int]);
            }
            if i > 0 {
                text.append(" ");
                proof {
                    reveal_strlit(" ");
                    assert(" "@ =~= seq![' ']);
                }
            }
            text.append(word);
            i += 1;
        }
        proof {
            assert(tokens@.take(i as int) =~= tokens@);
        }
        Ok(text)
    }
}

impl Default for Tokens {
    fn default() -> (empty: Self)
        ensures
            empty.words() == Seq::<Word>::empty(),
    {
        Tokens { entries: Entries::new() }
    }
}

/// The words of a prompt: its pieces between whitespace, in lowercase.
pub open spec fn prompt_words(prompt: Seq<char>) -> Seq<Word> {
    lowered(nonempty(pieces_of(prompt)))
}

/// The words of the first `upto` pieces that are not empty stand first
/// among those of all pieces.
proof fn lemma_nonempty_prefix(pieces: Seq<Word>, upto: int)
    requires
        0 <= upto <= pieces.len(),
    ensures
        nonempty(pieces.take(upto)).is_prefix_of(nonempty(pieces)),
    decreases pieces.len() - upto,
{
    if upto < pieces.len() {
        lemma_nonempty_prefix(pieces, upto + 1);
        assert(pieces.take(upto + 1).drop_last() =~= pieces.take(upto));
    } else {
        assert(pieces.take(upto) =~= pieces);
    }
}

/// No word of the vocabulary has a padding token for its token, and no
/// padding token has a word.
pub open spec fn reserves_padding(tokens: Tokens) -> bool {
    &&& !tokens.token_word().contains_key(START_TOKEN)
    &&& !tokens.token_word().contains_key(END_TOKEN)
    &&& forall|word: Word| #[trigger]
        tokens.word_token().contains_key(word) ==> is_word_token(tokens.word_token()[word])
}

/// No word has a padding token for its token, and no padding token has a
/// word.
pub proof fn lemma_padding_reserved(tokens: Tokens)
    requires
        tokens.wf(),
    ensures
        reserves_padding(tokens),
{
}

/// The two maps of a vocabulary are each other's inverse.
pub proof fn lemma_one_to_one(tokens: Tokens)
    requires
        tokens.wf(),
    ensures
        forall|word: Word| #[trigger]
            tokens.word_token().contains_key(word) ==> tokens.token_word().contains_key(
                tokens.word_token()[word],
            ) && tokens.token_word()[tokens.word_token()[word]] == word,
        forall|token: u64| #[trigger]
            tokens.token_word().contains_key(token) ==> tokens.word_token().contains_key(
                tokens.token_word()[token],
            ) && tokens.word_token()[tokens.token_word()[token]] == token,
{
    assert forall|word: Word| #[trigger] tokens.word_token().contains_key(word) implies tokens.token_word().contains_key(
        tokens.word_token()[word],
    ) && tokens.token_word()[tokens.word_token()[word]] == word by {
        let at = tokens.words().index_of(word);
        assert(tokens.ids()[at] == tokens.word_token()[word]);
        assert(tokens.ids().index_of(tokens.ids()[at]) == at);
    }
    assert forall|token: u64| #[trigger] tokens.token_word().contains_key(token) implies tokens.word_token().contains_key(
        tokens.token_word()[token],
    ) && tokens.word_token()[tokens.token_word()[token]] == token by {
        let at = tokens.ids().index_of(token);
        assert(tokens.words()[at] == tokens.token_word()[token]);
        assert(tokens.words().index_of(tokens.words()[at]) == at);
    }
}

} // verus!
