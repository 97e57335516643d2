use vstd::prelude::*;
use crate::index::HASH_FACTOR;
use crate::index::HASH_SEED;
use crate::index::Index;
use crate::index::hash_of_word;
use crate::index::hash_step;
use crate::index::hash_word;
use crate::text::pieces_of;
use crate::text::spec_to_lowercase;
use crate::text::split_whitespace;
use crate::text::to_lowercase;
use crate::text::trim;
use crate::text::trimmed;

verus! {

/// A word as contracts see it.
pub type Word = Seq<char>;

/// A message as contracts see it: its words in order.
pub type Message = Seq<Seq<char>>;

/// The string that `serde_json` reads out of `text`, where `text` is one
/// JSON string literal, with or without JSON whitespace around it, and
/// nothing else.
pub uninterp spec fn spec_json_string(text: Seq<char>) -> Option<Seq<char>>;

/// `serde_json::from_str::<String>`: the string that the text spells as a
/// JSON string literal, or nothing where the text is not such a literal. The
/// contract only names the result.
#[verifier::external_body]
fn json_string(text: &str) -> (parsed: Option<String>)
    ensures
        match parsed {
            Some(string) => spec_json_string(text@) == Some(string@),
            None => spec_json_string(text@).is_none(),
        },
{
    serde_json::from_str::<String>(text).ok()
}

/// The words that a vector of strings stands for.
pub open spec fn words_of(strings: Seq<String>) -> Message {
    Seq::new(strings.len(), |i: int| strings[i]@)
}

/// The messages that a vector of vectors of strings stands for.
pub open spec fn messages_of(rows: Seq<Vec<String>>) -> Seq<Message> {
    Seq::new(rows.len(), |i: int| words_of(rows[i]@))
}

/// The words of `pieces` that are not empty, in order.
pub open spec fn nonempty(pieces: Seq<Word>) -> Seq<Word>
    decreases pieces.len(),
{
    if pieces.len() == 0 {
        Seq::empty()
    } else if pieces.last().len() == 0 {
        nonempty(pieces.drop_last())
    } else {
        nonempty(pieces.drop_last()).push(pieces.last())
    }
}

/// The words of one line before any filter is applied: the line is trimmed,
/// read as a JSON string literal where it is one, and cut at whitespace.
pub open spec fn line_words(line: Seq<char>) -> Seq<Word> {
    let line = trimmed(line);
    let text = match spec_json_string(line) {
        Some(string) => string,
        None => line,
    };
    nonempty(pieces_of(text))
}

/// `filter` may turn the word `word` into `out`.
pub open spec fn filters_to<F: Fn(&str) -> String>(filter: F, word: Word, out: Word) -> bool {
    exists|w: &str, o: String| w@ == word && o@ == out && filter.ensures((w,), o)
}

/// `filter` may turn the words `words` into `out`, one by one.
pub open spec fn maps_to<F: Fn(&str) -> String>(filter: F, words: Seq<Word>, out: Message) -> bool {
    &&& out.len() == words.len()
    &&& forall|j: int| 0 <= j < words.len() ==> filters_to(filter, #[trigger] words[j], out[j])
}

/// A set of messages kept in the order of arrival: `message` joins
/// `messages` at the end, unless it has no words or is there already.
pub open spec fn insert_message(messages: Seq<Message>, message: Message) -> Seq<Message> {
    if message.len() == 0 || messages.contains(message) {
        messages
    } else {
        messages.push(message)
    }
}

/// `more` inserted into `messages`, one message after the other.
pub open spec fn insert_all(messages: Seq<Message>, more: Seq<Message>) -> Seq<Message>
    decreases more.len(),
{
    if more.len() == 0 {
        messages
    } else {
        insert_message(insert_all(messages, more.drop_last()), more.last())
    }
}

/// The lowercase forms of `words`.
pub open spec fn lowered(words: Seq<Word>) -> Message {
    Seq::new(words.len(), |j: int| spec_to_lowercase(words[j]))
}

/// The message that each line gives with lowercase as the filter.
pub open spec fn lowered_lines(lines: Seq<String>) -> Seq<Message> {
    Seq::new(lines.len(), |i: int| lowered(line_words(lines[i]@)))
}

/// No message occurs twice and none is without words.
pub open spec fn is_message_set(messages: Seq<Message>) -> bool {
    &&& messages.no_duplicates()
    &&& forall|i: int| 0 <= i < messages.len() ==> (#[trigger] messages[i]).len() > 0
}

/// Inserting a message into a set of messages gives a set of messages.
proof fn lemma_insert_message_keeps_set(messages: Seq<Message>, message: Message)
    requires
        is_message_set(messages),
    ensures
        is_message_set(insert_message(messages, message)),
{
}

/// Inserting messages into a set of messages gives a set of messages that
/// still holds, in their places, the messages it had.
pub proof fn lemma_insert_all_keeps_set(messages: Seq<Message>, more: Seq<Message>)
    requires
        is_message_set(messages),
    ensures
        is_message_set(insert_all(messages, more)),
        messages.is_prefix_of(insert_all(messages, more)),
    decreases more.len(),
{
    if more.len() > 0 {
        lemma_insert_all_keeps_set(messages, more.drop_last());
        lemma_insert_message_keeps_set(insert_all(messages, more.drop_last()), more.last());
    }
}

/// Whether two vectors of words hold the same words.
fn same_words(left: &Vec<String>, right: &Vec<String>) -> (same: bool)
    ensures
        same == (words_of(left@) == words_of(right@)),
{
    if left.len() != right.len() {
        proof {
            assert(words_of(left@).len() != words_of(right@).len());
        }
        return false;
    }
    let mut i: usize = 0;
    while i < left.len()
        invariant
            i <= left.len(),
            left.len() == right.len(),
            forall|j: int| 0 <= j < i ==> left@[j]@ == right@[j]@,
        decreases left.len() - i,
    {
        if left[i] != right[i] {
            proof {
                assert(words_of(left@)[i as int] != words_of(right@)[i as int]);
            }
            return false;
        }
        i += 1;
    }
    proof {
        assert(words_of(left@) =~= words_of(right@));
    }
    true
}

/// The hash of a message: the hashes of its words, taken in one after the
/// other.
pub open spec fn hash_of_message(message: Message) -> u64
    decreases message.len(),
{
    if message.len() == 0 {
        HASH_SEED
    } else {
        hash_step(hash_of_message(message.drop_last()), hash_of_word(message.last()))
    }
}

/// The hashes of the messages, each at the place of its message.
pub open spec fn message_hashes(messages: Seq<Message>) -> Seq<u64> {
    Seq::new(messages.len(), |i: int| hash_of_message(messages[i]))
}

/// The hash of a message.
fn hash_message(message: &Vec<String>) -> (hash: u64)
    ensures
        hash == hash_of_message(words_of(message@)),
{
    let ghost words = words_of(message@);
    let mut hash: u64 = HASH_SEED;
    let mut i: usize = 0;
    proof {
        assert(words.take(0) =~= Seq::<Word>::empty());
    }
    while i < message.len()
        invariant
            i <= message.len(),
            words == words_of(message@),
            hash == hash_of_message(words.take(i as int)),
        decreases message.len() - i,
    {
        proof {
            assert(words.take(i + 1).drop_last() =~= words.take(i as int));
            assert(words.take(i + 1).last() == message@[i as int]@);
        }
        hash = (hash ^ hash_word(message[i].as_str())).wrapping_mul(HASH_FACTOR);
        i += 1;
    }
    proof {
        assert(words.take(i as int) =~= words);
    }
    hash
}

/// Whether `rows` holds `message` at one of `places`.
fn holds_among(rows: &Vec<Vec<String>>, places: &Vec<usize>, message: &Vec<String>) -> (found: bool)
    requires
        forall|k: int| 0 <= k < places.len() ==> (#[trigger] places@[k]) < rows.len(),
    ensures
        found ==> messages_of(rows@).contains(words_of(message@)),
        !found ==> forall|k: int|
            0 <= k < places.len() ==> messages_of(rows@)[(#[trigger] places@[k]) as int] != words_of(message@),
{
    let mut k: usize = 0;
    while k < places.len()
        invariant
            k <= places.len(),
            forall|j: int| 0 <= j < places.len() ==> (#[trigger] places@[j]) < rows.len(),
            forall|j: int|
                0 <= j < k ==> messages_of(rows@)[(#[trigger] places@[j]) as int] != words_of(message@),
        decreases places.len() - k,
    {
        let place = places[k];
        if same_words(&rows[place], message) {
            proof {
                assert(messages_of(rows@)[place as int] == words_of(message@));
            }
            return true;
        }
        k += 1;
    }
    false
}

/// Whether `rows` holds the message `message`, whose hash is `hash`.
fn holds(rows: &Vec<Vec<String>>, index: &Index, message: &Vec<String>, hash: u64) -> (found: bool)
    requires
        index.indexes(message_hashes(messages_of(rows@))),
        hash == hash_of_message(words_of(message@)),
    ensures
        found == messages_of(rows@).contains(words_of(message@)),
{
    let ghost messages = messages_of(rows@);
    let ghost hashes = message_hashes(messages);
    let found = match index.places(hash) {
        Some(places) => {
            proof {
                assert forall|k: int| 0 <= k < places.len() implies (#[trigger] places@[k]) < rows.len() by {
                    assert(index.bucket(hash)[k] < hashes.len());
                }
            }
            holds_among(rows, places, message)
        },
        None => false,
    };
    proof {
        if !found && messages.contains(words_of(message@)) {
            let i = messages.index_of(words_of(message@));
            assert(hashes[i] == hash);
            assert(index.bucket(hashes[i]).contains(i as usize));
            let k = index.bucket(hash).index_of(i as usize);
            assert(messages[index.bucket(hash)[k] as int] == words_of(message@));
        }
    }
    found
}

/// Inserts `message` into the rows of a message set.
fn insert_row(rows: &mut Vec<Vec<String>>, index: &mut Index, message: Vec<String>)
    requires
        old(index).indexes(message_hashes(messages_of(old(rows)@))),
    ensures
        final(index).indexes(message_hashes(messages_of(final(rows)@))),
        messages_of(final(rows)@) == insert_message(messages_of(old(rows)@), words_of(message@)),
{
    if message.len() > 0 {
        let hash = hash_message(&message);
        if !holds(rows, index, &message, hash) {
            let ghost before = *index;
            let ghost messages = messages_of(rows@);
            index.add(hash, rows.len());
            rows.push(message);
            proof {
                assert(messages_of(rows@) =~= messages.push(words_of(message@)));
                assert(message_hashes(messages_of(rows@)) =~= message_hashes(messages).push(hash));
                Index::lemma_add(before, *index, message_hashes(messages), hash);
            }
        }
    }
}

/// A set of messages, each a sequence of words, kept in the order in which
/// they were first seen.
#[derive(Debug)]
pub struct Messages {
    pub(crate) messages: Vec<Vec<String>>,
    pub(crate) index: Index,
}

impl Messages {
    /// No message occurs twice, none is without words, and every message
    /// is found at its place.
    #[verifier::type_invariant]
    pub open(crate) spec fn wf(self) -> bool {
        &&& is_message_set(messages_of(self.messages@))
        &&& self.index.indexes(message_hashes(messages_of(self.messages@)))
    }

    /// The messages, in the order in which they were first seen.
    pub open(crate) spec fn contents(self) -> Seq<Message> {
        messages_of(self.messages@)
    }

    /// The messages of `lines`, each word in lowercase.
    pub fn parse_from_lines(lines: &[String]) -> (parsed: Self)
        ensures
            parsed.contents() == insert_all(Seq::empty(), lowered_lines(lines@)),
            parsed.wf(),
    {
        let parsed = Self::parse_from_lines_with_filter(lines, to_lowercase);
        proof {
            let per_line = choose|per_line: Seq<Message>|
                {
                    &&& #[trigger] Self::parses_to(lines@, per_line, parsed.contents())
                    &&& forall|i: int|
                        0 <= i < lines.len() ==> maps_to(
                            to_lowercase,
                            line_words(lines@[i]@),
                            #[trigger] per_line[i],
                        )
                };
            assert(per_line =~= lowered_lines(lines@)) by {
                assert forall|i: int| 0 <= i < lines.len() implies per_line[i] == lowered_lines(
                    lines@,
                )[i] by {
                    let words = line_words(lines@[i]@);
                    assert(per_line[i].len() == words.len());
                    assert forall|j: int| 0 <= j < words.len() implies per_line[i][j]
                        == spec_to_lowercase(words[j]) by {
                        let _ = words[j];
                    }
                    assert(per_line[i] =~= lowered(words));
                }
            }
        }
        parsed
    }

    /// `per_line` holds one message for each line and `contents` is what
    /// inserting them in order gives.
    pub open spec fn parses_to(lines: Seq<String>, per_line: Seq<Message>, contents: Seq<Message>) -> bool {
        &&& per_line.len() == lines.len()
        &&& contents == insert_all(Seq::empty(), per_line)
    }

    /// The messages of `lines`. Each line gives one message: its words (see
    /// `line_words`), each passed through `filter`. Lines without words give
    /// none, and a message that was seen before is not kept again.
    pub fn parse_from_lines_with_filter<F: Fn(&str) -> String>(lines: &[String], filter: F) -> (parsed:
        Self)
        requires
            forall|word: &str| filter.requires((word,)),
        ensures
            parsed.wf(),
            exists|per_line: Seq<Message>|
                {
                    &&& #[trigger] Self::parses_to(lines@, per_line, parsed.contents())
                    &&& forall|i: int|
                        0 <= i < lines.len() ==> maps_to(filter, line_words(lines@[i]@), #[trigger] per_line[i])
                },
    {
        let mut rows: Vec<Vec<String>> = Vec::new();
        let mut index = Index::new();
        let ghost mut per_line: Seq<Message> = Seq::empty();
        let mut i: usize = 0;
        proof {
            assert(messages_of(rows@) =~= Seq::empty());
            assert(message_hashes(messages_of(rows@)) =~= Seq::<u64>::empty());
        }
        while i < lines.len()
            invariant
                i <= lines.len(),
                forall|word: &str| filter.requires((word,)),
                per_line.len() == i,
                index.indexes(message_hashes(messages_of(rows@))),
                messages_of(rows@) == insert_all(Seq::empty(), per_line),
                forall|k: int|
                    0 <= k < i ==> maps_to(filter, line_words(lines@[k]@), #[trigger] per_line[k]),
            decreases lines.len() - i,
        {
            let message = Self::parse_line(lines[i].as_str(), &filter);
            proof {
                let next = per_line.push(words_of(message@));
                assert(next.drop_last() =~= per_line);
                per_line = next;
            }
            insert_row(&mut rows, &mut index, message);
            i += 1;
        }
        proof {
            lemma_insert_all_keeps_set(Seq::empty(), per_line);
        }
        let parsed = Messages { messages: rows, index };
        proof {
            assert(Self::parses_to(lines@, per_line, parsed.contents()));
        }
        parsed
    }

    /// The message of one line.
    fn parse_line<F: Fn(&str) -> String>(line: &str, filter: &F) -> (message: Vec<String>)
        requires
            forall|word: &str| filter.requires((word,)),
        ensures
            maps_to(*filter, line_words(line@), words_of(message@)),
    {
        let line = trim(line);
        let text: String = match json_string(line.as_str()) {
            Some(string) => string,
            None => line,
        };
        let pieces = split_whitespace(text.as_str());
        let ghost all = words_of(pieces@);
        let mut message: Vec<String> = Vec::new();
        let mut j: usize = 0;
        proof {
            assert(all.take(0) =~= Seq::empty());
        }
        while j < pieces.len()
            invariant
                j <= pieces.len(),
                all == words_of(pieces@),
                forall|word: &str| filter.requires((word,)),
                maps_to(*filter, nonempty(all.take(j as int)), words_of(message@)),
            decreases pieces.len() - j,
        {
            let piece = pieces[j].as_str();
            let ghost before = words_of(message@);
            let ghost seen = nonempty(all.take(j as int));
            proof {
                assert(all.take(j + 1).drop_last() =~= all.take(j as int));
                assert(all.take(j + 1).last() == piece@);
            }
            if !piece.is_empty() {
                let out = filter(piece);
                message.push(out);
                proof {
                    let after = words_of(message@);
                    let now = nonempty(all.take(j + 1));
                    assert(now == seen.push(piece@));
                    assert(after =~= before.push(out@));
                    assert forall|k: int| 0 <= k < now.len() implies filters_to(
                        *filter,
                        #[trigger] now[k],
                        after[k],
                    ) by {
                        if k < seen.len() {
                            assert(filters_to(*filter, seen[k], before[k]));
                        } else {
                            assert(filter.ensures((piece,), out));
                        }
                    }
                }
            }
            j += 1;
        }
        proof {
            assert(all.take(j as int) =~= all);
        }
        message
    }

    /// The messages, in the order in which they were first seen: no message
    /// twice, none without words.
    pub fn messages(&self) -> (rows: &Vec<Vec<String>>)
        ensures
            messages_of(rows@) == self.contents(),
            is_message_set(messages_of(rows@)),
    {
        proof {
            use_type_invariant(self);
        }
        &self.messages
    }

    /// This set with `message` inserted.
    pub fn with_message(self, message: Vec<String>) -> (joined: Self)
        ensures
            joined.contents() == insert_message(self.contents(), words_of(message@)),
    {
        proof {
            use_type_invariant(&self);
        }
        let mut rows = self.messages;
        let mut index = self.index;
        proof {
            lemma_insert_message_keeps_set(messages_of(rows@), words_of(message@));
        }
        insert_row(&mut rows, &mut index, message);
        Messages { messages: rows, index }
    }

    /// The union of two sets: the messages of this one, then those of
    /// `messages` that this one lacks.
    pub fn merge(self, messages: Messages) -> (merged: Self)
        ensures
            merged.contents() == insert_all(self.contents(), messages.contents()),
            self.contents().is_prefix_of(merged.contents()),
    {
        proof {
            use_type_invariant(&self);
        }
        let mut rows = self.messages;
        let mut index = self.index;
        let mut more = messages.messages;
        let ghost base = messages_of(rows@);
        let ghost all = messages_of(more@);
        let mut taken: Vec<Vec<String>> = Vec::new();
        // The rows of `messages` are moved out from the back and then put
        // in from the front.
        while more.len() > 0
            invariant
                more.len() + taken.len() == all.len(),
                forall|k: int| 0 <= k < more.len() ==> words_of(#[trigger] more@[k]@) == all[k],
                forall|k: int|
                    0 <= k < taken.len() ==> words_of(#[trigger] taken@[k]@) == all[all.len() - 1 - k],
            decreases more.len(),
        {
            let row = more.pop().unwrap();
            taken.push(row);
        }
        proof {
            assert(all.take(0) =~= Seq::<Message>::empty());
        }
        while taken.len() > 0
            invariant
                taken.len() <= all.len(),
                forall|k: int|
                    0 <= k < taken.len() ==> words_of(#[trigger] taken@[k]@) == all[all.len() - 1 - k],
                index.indexes(message_hashes(messages_of(rows@))),
                messages_of(rows@) == insert_all(base, all.take(all.len() - taken.len())),
            decreases taken.len(),
        {
            let ghost done = all.len() - taken.len();
            let row = taken.pop().unwrap();
            proof {
                assert(words_of(row@) == all[done]);
                assert(all.take(done + 1).drop_last() =~= all.take(done));
                assert(all.take(done + 1).last() == all[done]);
            }
            insert_row(&mut rows, &mut index, row);
        }
        proof {
            assert(all.take(all.len() as int) =~= all);
            lemma_insert_all_keeps_set(base, all);
        }
        Messages { messages: rows, index }
    }
}

impl Default for Messages {
    fn default() -> (empty: Self)
        ensures
            empty.contents() == Seq::<Message>::empty(),
    {
        let rows: Vec<Vec<String>> = Vec::new();
        proof {
            assert(messages_of(rows@) =~= Seq::<Message>::empty());
            assert(message_hashes(messages_of(rows@)) =~= Seq::<u64>::empty());
        }
        Messages { messages: rows, index: Index::new() }
    }
}

} // verus!
