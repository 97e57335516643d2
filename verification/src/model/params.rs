use vstd::prelude::*;

verus! {

/// What the generator reads of the parameters of a generation: the limits
/// and switches. The probabilities of a generation are kept by whoever
/// answers the generator's questions.
#[derive(Debug, Clone, Copy, PartialEq, Eq, Structural)]
pub struct GenerationParams {
    /// The chain length beyond which no token is emitted.
    pub max_len: usize,
    /// How many of the last tokens of the chain are searched for repeats
    /// of a candidate; the whole chain where there is no number.
    pub repeat_penalty_window: Option<usize>,
    /// Do not use the table of pairs.
    pub no_bigrams: bool,
    /// Do not use the table of triples.
    pub no_trigrams: bool,
}

impl Default for GenerationParams {
    fn default() -> (params: Self)
        ensures
            params == (GenerationParams {
                max_len: 150,
                repeat_penalty_window: None,
                no_bigrams: false,
                no_trigrams: false,
            }),
    {
        GenerationParams { max_len: 150, repeat_penalty_window: None, no_bigrams: false, no_trigrams: false }
    }
}

} // verus!
