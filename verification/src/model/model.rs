use vstd::prelude::*;
use crate::dataset::Dataset;
use crate::model::generator::Generator;
use crate::model::generator::Phase;
use crate::model::generator::State;
use crate::model::params::GenerationParams;
use crate::model::transitions::Transitions;
use crate::text::split_once;
use crate::model::transitions::all_counts_fit;
use crate::tokens::Tokens;

verus! {

/// The version that `Model::build` writes into the headers of a model.
pub const VERSION: &'static str = "0.1.0";

/// The tag of the header that holds the version.
pub const VERSION_TAG: &'static str = "version";

/// A header as contracts see it: its tag and its value.
pub type Header = (Seq<char>, Seq<char>);

/// The headers that a vector of pairs of strings stands for.
pub open spec fn headers_of(entries: Seq<(String, String)>) -> Seq<Header> {
    Seq::new(entries.len(), |i: int| (entries[i].0@, entries[i].1@))
}

/// No tag occurs twice.
pub open spec fn distinct_tags(headers: Seq<Header>) -> bool {
    forall|i: int, j: int| 0 <= i < j < headers.len() ==> (#[trigger] headers[i]).0 != (#[trigger] headers[j]).0
}

/// The place of the header with the tag `tag`, or the number of headers
/// where no header has the tag.
pub open spec fn tag_index(headers: Seq<Header>, tag: Seq<char>) -> int
    decreases headers.len(),
{
    if headers.len() == 0 {
        0
    } else if headers[0].0 == tag {
        0
    } else {
        1 + tag_index(headers.drop_first(), tag)
    }
}

/// The headers with `value` under the tag `tag`: in the place of the value
/// that the tag had, or at the end where the tag is new.
pub open spec fn set_header(headers: Seq<Header>, tag: Seq<char>, value: Seq<char>) -> Seq<Header> {
    let at = tag_index(headers, tag);
    if at < headers.len() {
        headers.update(at, (tag, value))
    } else {
        headers.push((tag, value))
    }
}

/// The index of a tag is the place of the first header with the tag,
/// or the number of headers where there is none.
proof fn lemma_tag_index(headers: Seq<Header>, tag: Seq<char>)
    ensures
        0 <= tag_index(headers, tag) <= headers.len(),
        tag_index(headers, tag) < headers.len() ==> headers[tag_index(headers, tag)].0 == tag,
        forall|i: int| 0 <= i < tag_index(headers, tag) ==> (#[trigger] headers[i]).0 != tag,
    decreases headers.len(),
{
    if headers.len() > 0 && headers[0].0 != tag {
        let rest = headers.drop_first();
        lemma_tag_index(rest, tag);
        assert forall|i: int| 0 <= i < tag_index(headers, tag) implies (#[trigger] headers[i]).0 != tag by {
            if i > 0 {
                assert(rest[i - 1] == headers[i]);
            }
        }
    }
}

/// Setting a header keeps the tags distinct.
pub proof fn lemma_set_header_distinct(headers: Seq<Header>, tag: Seq<char>, value: Seq<char>)
    requires
        distinct_tags(headers),
    ensures
        distinct_tags(set_header(headers, tag, value)),
{
    lemma_tag_index(headers, tag);
}

/// The place of the header with the tag `tag`, or the number of headers
/// where no header has the tag.
fn find_tag(headers: &Vec<(String, String)>, tag: &String) -> (at: usize)
    ensures
        at == tag_index(headers_of(headers@), tag@),
        at <= headers.len(),
{
    let ghost all = headers_of(headers@);
    let mut i: usize = 0;
    proof {
        lemma_tag_index(all, tag@);
    }
    while i < headers.len()
        invariant
            i <= headers.len(),
            all == headers_of(headers@),
            forall|k: int| 0 <= k < i ==> (#[trigger] all[k]).0 != tag@,
            0 <= tag_index(all, tag@) <= all.len(),
            tag_index(all, tag@) < all.len() ==> all[tag_index(all, tag@)].0 == tag@,
            forall|k: int| 0 <= k < tag_index(all, tag@) ==> (#[trigger] all[k]).0 != tag@,
        decreases headers.len() - i,
    {
        if headers[i].0 == *tag {
            proof {
                assert(all[i as int].0 == tag@);
            }
            return i;
        }
        proof {
            assert(all[i as int].0 != tag@);
        }
        i += 1;
    }
    i
}

/// The headers with the header that `line` spells as `tag=value`; the
/// headers as they are where `line` holds no `=`. The tag ends at the first
/// `=`.
pub open spec fn set_header_line(headers: Seq<Header>, line: Seq<char>) -> Seq<Header> {
    match line.index_of_first('=') {
        Some(at) => set_header(headers, line.take(at), line.skip(at + 1)),
        None => headers,
    }
}

/// A language model: the counted steps of a dataset, the vocabulary that
/// its tokens come from, and headers that describe it.
#[derive(Debug)]
pub struct Model {
    pub(crate) headers: Vec<(String, String)>,
    pub(crate) transitions: Transitions,
    pub(crate) tokens: Tokens,
}

impl Model {
    /// No tag occurs twice among the headers.
    #[verifier::type_invariant]
    pub open(crate) spec fn wf(self) -> bool {
        distinct_tags(headers_of(self.headers@))
    }

    /// The headers, in the order in which their tags were first set.
    pub open(crate) spec fn header_list(self) -> Seq<Header> {
        headers_of(self.headers@)
    }

    /// The counted steps.
    pub open(crate) spec fn steps(self) -> Transitions {
        self.transitions
    }

    /// The vocabulary.
    pub open(crate) spec fn vocabulary(self) -> Tokens {
        self.tokens
    }

    /// A model of the given parts, without headers.
    pub fn from_parts(transitions: Transitions, tokens: Tokens) -> (model: Self)
        ensures
            model.header_list() == Seq::<Header>::empty(),
            model.steps() == transitions,
            model.vocabulary() == tokens,
    {
        let headers: Vec<(String, String)> = Vec::new();
        proof {
            assert(headers_of(headers@) =~= Seq::<Header>::empty());
        }
        Model { headers, transitions, tokens }
    }

    /// The model of a dataset: its counted steps (see
    /// `Transitions::build_from_dataset`), its vocabulary, and the version
    /// as the one header.
    pub fn build(dataset: Dataset, build_bigrams: bool, build_trigrams: bool) -> (model: Self)
        requires
            all_counts_fit(dataset.corpora(), build_bigrams, build_trigrams),
        ensures
            model.steps().counts_all(dataset.corpora(), build_bigrams, build_trigrams),
            model.vocabulary() == dataset.vocabulary(),
            model.header_list() == seq![(VERSION_TAG@, VERSION@)],
    {
        let transitions = dataset.build_transitions(build_bigrams, build_trigrams);
        let model = Self::from_parts(transitions, dataset.tokens);
        let model = model.with_header(VERSION_TAG, VERSION);
        proof {
            assert(model.header_list() =~= seq![(VERSION_TAG@, VERSION@)]);
        }
        model
    }

    /// The model of a dataset, as `build` gives it; nothing where a count
    /// does not fit a `u64`.
    pub fn try_build(dataset: Dataset, build_bigrams: bool, build_trigrams: bool) -> (built: Option<Self>)
        ensures
            built.is_some() == all_counts_fit(dataset.corpora(), build_bigrams, build_trigrams),
            built matches Some(model) ==> {
                &&& model.steps().counts_all(dataset.corpora(), build_bigrams, build_trigrams)
                &&& model.vocabulary() == dataset.vocabulary()
                &&& model.header_list() == seq![(VERSION_TAG@, VERSION@)]
            },
    {
        match Transitions::try_build_from_dataset(&dataset, build_bigrams, build_trigrams) {
            Some(transitions) => {
                let model = Self::from_parts(transitions, dataset.tokens).with_header(VERSION_TAG, VERSION);
                proof {
                    assert(model.header_list() =~= seq![(VERSION_TAG@, VERSION@)]);
                }
                Some(model)
            },
            None => None,
        }
    }

    /// This model with `value` as the header under `tag`, in place of the
    /// value that the tag had, if it had one.
    pub fn with_header(self, tag: &str, value: &str) -> (model: Self)
        ensures
            model.header_list() == set_header(self.header_list(), tag@, value@),
            model.steps() == self.steps(),
            model.vocabulary() == self.vocabulary(),
    {
        proof {
            use_type_invariant(&self);
        }
        let mut headers = self.headers;
        let ghost before = headers_of(headers@);
        let tag_owned = tag.to_owned();
        let value_owned = value.to_owned();
        proof {
            lemma_set_header_distinct(before, tag@, value@);
        }
        let i = find_tag(&headers, &tag_owned);
        if i < headers.len() {
            headers[i] = (tag_owned, value_owned);
            proof {
                assert(headers_of(headers@) =~= before.update(i as int, (tag@, value@)));
            }
        } else {
            headers.push((tag_owned, value_owned));
            proof {
                assert(headers_of(headers@) =~= before.push((tag@, value@)));
            }
        }
        Model { headers, transitions: self.transitions, tokens: self.tokens }
    }

    /// This model with the header that `line` spells as `tag=value`;
    /// this model as it is where `line` holds no `=`.
    pub fn with_header_line(self, line: &str) -> (model: Self)
        ensures
            model.header_list() == set_header_line(self.header_list(), line@),
            model.steps() == self.steps(),
            model.vocabulary() == self.vocabulary(),
    {
        match split_once(line, '=') {
            Some((tag, value)) => self.with_header(tag.as_str(), value.as_str()),
            None => self,
        }
    }

    /// A generator that starts from the prompt `beginning`.
    pub fn generate<'a>(&'a self, beginning: Vec<u64>, params: &'a GenerationParams) -> (generator: Generator<'a>)
        ensures
            generator.state() == (State { chain: beginning@, remaining: Seq::empty(), phase: Phase::Idle }),
            generator.prompt() == beginning.len(),
            generator.parameters() == *params,
            generator.source() == *self,
            generator.wf(),
    {
        Generator::new(self, beginning, params)
    }

    /// The headers: pairs of tag and value, no tag twice.
    pub fn headers(&self) -> (headers: &Vec<(String, String)>)
        ensures
            headers_of(headers@) == self.header_list(),
            distinct_tags(headers_of(headers@)),
    {
        proof {
            use_type_invariant(self);
        }
        &self.headers
    }

    /// The counted steps.
    pub fn transitions(&self) -> (transitions: &Transitions)
        ensures
            *transitions == self.steps(),
    {
        &self.transitions
    }

    /// The vocabulary.
    pub fn tokens(&self) -> (tokens: &Tokens)
        ensures
            *tokens == self.vocabulary(),
    {
        &self.tokens
    }
}

impl Default for Model {
    /// The model of nothing: no headers, no counted steps, no words.
    fn default() -> (empty: Self)
        ensures
            empty.header_list() == Seq::<Header>::empty(),
            empty.steps().unigram_table().content() == Seq::<crate::model::transitions::Row<1>>::empty(),
            empty.steps().bigram_table().is_none(),
            empty.steps().trigram_table().is_none(),
            empty.vocabulary().words() == Seq::<Seq<char>>::empty(),
    {
        Self::from_parts(Transitions::default(), Tokens::default())
    }
}

} // verus!
