use vstd::prelude::*;
use vstd::slice::slice_subrange;
use vstd::array::array_as_slice;
use vstd::array::array_fill_for_copy_types;
use vstd::std_specs::cmp::PartialEqSpecImpl;

verus! {

/// Padding token that stands before the first word of every sentence.
pub const START_TOKEN: u64 = 0;

/// Padding token that stands after the last word of every sentence.
pub const END_TOKEN: u64 = 0xffff_ffff_ffff_ffff;

/// Every slot of the window holds the start padding.
pub open spec fn all_start(window: Seq<u64>) -> bool {
    forall|i: int| 0 <= i < window.len() ==> window[i] == START_TOKEN
}

/// Every slot of the window holds the end padding.
pub open spec fn all_end(window: Seq<u64>) -> bool {
    forall|i: int| 0 <= i < window.len() ==> window[i] == END_TOKEN
}

/// Some slot of the window holds the start padding.
pub open spec fn has_start(window: Seq<u64>) -> bool {
    exists|i: int| 0 <= i < window.len() && window[i] == START_TOKEN
}

/// Some slot of the window holds the end padding.
pub open spec fn has_end(window: Seq<u64>) -> bool {
    exists|i: int| 0 <= i < window.len() && window[i] == END_TOKEN
}

/// The token at position `k` of a sentence padded with `n` start tokens in
/// front and end tokens behind (as many of those as are asked for).
pub open spec fn padded_at(tokens: Seq<u64>, n: nat, k: int) -> u64 {
    if k < n {
        START_TOKEN
    } else if k - n < tokens.len() {
        tokens[k - n]
    } else {
        END_TOKEN
    }
}

/// The `i`-th window of size `n` over the padded sentence.
pub open spec fn window_at(tokens: Seq<u64>, n: nat, i: int) -> Seq<u64> {
    Seq::new(n, |j: int| padded_at(tokens, n, i + j))
}

/// The lifting of a sentence at order `n`: every window of size `n` over the
/// sentence with `n` start tokens before it and `n` end tokens after it.
pub open spec fn lift(tokens: Seq<u64>, n: nat) -> Seq<Seq<u64>> {
    Seq::new(tokens.len() + n + 1, |i: int| window_at(tokens, n, i))
}

/// The lifting without its last `n` windows, those that reach into the end
/// padding.
pub open spec fn lift_tailless(tokens: Seq<u64>, n: nat) -> Seq<Seq<u64>> {
    Seq::new(tokens.len() + 1, |i: int| window_at(tokens, n, i))
}

/// What a scan over windows collects: windows of start padding are passed
/// over, the first window that touches the end padding ends the scan, and
/// every other window gives its last slot.
pub open spec fn collect(windows: Seq<Seq<u64>>) -> Seq<u64>
    decreases windows.len(),
{
    if windows.len() == 0 {
        Seq::empty()
    } else if all_start(windows[0]) {
        collect(windows.drop_first())
    } else if has_end(windows[0]) {
        Seq::empty()
    } else {
        seq![windows[0].last()] + collect(windows.drop_first())
    }
}

/// The sentence read back from a sequence of windows. The last window closes
/// the sequence and gives no token.
pub open spec fn unlift(windows: Seq<Seq<u64>>) -> Seq<u64> {
    if windows.len() == 0 {
        Seq::empty()
    } else {
        collect(windows.drop_last())
    }
}

/// A window of `SIZE` adjacent tokens.
#[derive(Debug, Clone, Copy, Eq, Hash)]
pub struct Ngram<const SIZE: usize>(pub [u64; SIZE]);

/// A window of one token.
pub type Unigram = Ngram<1>;

/// A window of two tokens.
pub type Bigram = Ngram<2>;

/// A window of three tokens.
pub type Trigram = Ngram<3>;

impl<const SIZE: usize> View for Ngram<SIZE> {
    type V = Seq<u64>;

    open spec fn view(&self) -> Seq<u64> {
        self.0@
    }
}

impl<const SIZE: usize> PartialEq for Ngram<SIZE> {
    fn eq(&self, other: &Self) -> (r: bool) {
        let mut i: usize = 0;
        while i < SIZE
            invariant
                i <= SIZE,
                forall|j: int| 0 <= j < i ==> self.0[j] == other.0[j],
            decreases SIZE - i,
        {
            if self.0[i] != other.0[i] {
                return false;
            }
            i += 1;
        }
        proof {
            assert(self.0 =~= other.0);
        }
        true
    }
}

impl<const SIZE: usize> PartialEqSpecImpl for Ngram<SIZE> {
    open spec fn obeys_eq_spec() -> bool {
        true
    }

    open spec fn eq_spec(&self, other: &Self) -> bool {
        self@ == other@
    }
}

/// The windows that a sequence of n-grams stands for.
pub open spec fn views<const SIZE: usize>(ngrams: Seq<Ngram<SIZE>>) -> Seq<Seq<u64>> {
    Seq::new(ngrams.len(), |i: int| ngrams[i]@)
}

impl<const SIZE: usize> Ngram<SIZE> {
    /// The window of the given tokens.
    pub fn new(tokens: [u64; SIZE]) -> (ngram: Self)
        ensures
            ngram@ == tokens@,
            ngram.0 == tokens,
    {
        Ngram(tokens)
    }

    /// The window of start padding.
    pub fn start() -> (ngram: Self)
        ensures
            ngram@.len() == SIZE,
            all_start(ngram@),
    {
        Ngram(array_fill_for_copy_types(START_TOKEN))
    }

    /// Whether every slot holds the start padding.
    pub fn is_start(&self) -> (r: bool)
        ensures
            r == all_start(self@),
    {
        let mut i: usize = 0;
        while i < SIZE
            invariant
                i <= SIZE,
                forall|j: int| 0 <= j < i ==> self@[j] == START_TOKEN,
            decreases SIZE - i,
        {
            if self.0[i] != START_TOKEN {
                return false;
            }
            i += 1;
        }
        true
    }

    /// Whether every slot holds the end padding.
    pub fn is_end(&self) -> (r: bool)
        ensures
            r == all_end(self@),
    {
        let mut i: usize = 0;
        while i < SIZE
            invariant
                i <= SIZE,
                forall|j: int| 0 <= j < i ==> self@[j] == END_TOKEN,
            decreases SIZE - i,
        {
            if self.0[i] != END_TOKEN {
                return false;
            }
            i += 1;
        }
        true
    }

    /// Whether some slot holds the start padding.
    pub fn contains_start(&self) -> (r: bool)
        ensures
            r == has_start(self@),
    {
        let mut i: usize = 0;
        while i < SIZE
            invariant
                i <= SIZE,
                forall|j: int| 0 <= j < i ==> self@[j] != START_TOKEN,
            decreases SIZE - i,
        {
            if self.0[i] == START_TOKEN {
                return true;
            }
            i += 1;
        }
        false
    }

    /// Whether some slot holds the end padding.
    pub fn contains_end(&self) -> (r: bool)
        ensures
            r == has_end(self@),
    {
        let mut i: usize = 0;
        while i < SIZE
            invariant
                i <= SIZE,
                forall|j: int| 0 <= j < i ==> self@[j] != END_TOKEN,
            decreases SIZE - i,
        {
            if self.0[i] == END_TOKEN {
                return true;
            }
            i += 1;
        }
        false
    }

    /// The last slot: the token that a step onto this window emits.
    pub fn emitted_token(&self) -> (token: u64)
        requires
            SIZE >= 1,
        ensures
            token == self@.last(),
    {
        self.0[SIZE - 1]
    }

    /// The token this window stands at: its last slot.
    pub fn token(&self) -> (token: u64)
        requires
            SIZE >= 1,
        ensures
            token == self@.last(),
    {
        self.0[SIZE - 1]
    }

    /// All slots but the last.
    pub fn head(&self) -> (head: &[u64])
        requires
            SIZE >= 1,
        ensures
            head@ == self@.drop_last(),
    {
        slice_subrange(array_as_slice(&self.0), 0, SIZE - 1)
    }

    /// All slots but the first.
    pub fn tail(&self) -> (tail: &[u64])
        requires
            SIZE >= 1,
        ensures
            tail@ == self@.drop_first(),
    {
        slice_subrange(array_as_slice(&self.0), 1, SIZE)
    }

    /// The window at position `i` of the lifting of `tokens`.
    pub fn window(tokens: &[u64], i: u128) -> (ngram: Self)
        requires
            i <= tokens.len() + SIZE,
        ensures
            ngram@ == window_at(tokens@, SIZE as nat, i as int),
    {
        let mut slots: [u64; SIZE] = array_fill_for_copy_types(START_TOKEN);
        let mut j: usize = 0;
        while j < SIZE
            invariant
                j <= SIZE,
                i <= tokens.len() + SIZE,
                slots@.len() == SIZE,
                forall|k: int| 0 <= k < j ==> slots@[k] == padded_at(tokens@, SIZE as nat, i + k),
            decreases SIZE - j,
        {
            let lead: u128 = (SIZE - j) as u128;
            let slot: u64 = if i < lead {
                START_TOKEN
            } else if i - lead < tokens.len() as u128 {
                tokens[(i - lead) as usize]
            } else {
                END_TOKEN
            };
            slots[j] = slot;
            j += 1;
        }
        proof {
            assert(slots@ =~= window_at(tokens@, SIZE as nat, i as int));
        }
        Ngram(slots)
    }

    /// Lifts a sentence to its sequence of n-grams: one for every window over
    /// the sentence with `SIZE` start tokens before it and `SIZE` end tokens
    /// after it.
    pub fn construct(tokens: &[u64]) -> (ngrams: Vec<Self>)
        ensures
            views(ngrams@) == lift(tokens@, SIZE as nat),
    {
        let count: u128 = tokens.len() as u128 + SIZE as u128 + 1;
        let mut ngrams: Vec<Self> = Vec::new();
        let mut i: u128 = 0;
        while i < count
            invariant
                i <= count,
                count == tokens.len() + SIZE + 1,
                ngrams@.len() == i,
                forall|k: int| 0 <= k < i ==> ngrams@[k]@ == window_at(tokens@, SIZE as nat, k),
            decreases count - i,
        {
            ngrams.push(Self::window(tokens, i));
            i += 1;
        }
        proof {
            assert(views(ngrams@) =~= lift(tokens@, SIZE as nat));
        }
        ngrams
    }

    /// Lifts a sentence without the windows that reach into the end padding:
    /// the last n-gram ends on the last token of the sentence, or is the
    /// window of start padding where the sentence is empty.
    pub fn construct_tailless(tokens: &[u64]) -> (ngrams: Vec<Self>)
        ensures
            views(ngrams@) == lift_tailless(tokens@, SIZE as nat),
    {
        let count: u128 = tokens.len() as u128 + 1;
        let mut ngrams: Vec<Self> = Vec::new();
        let mut i: u128 = 0;
        while i < count
            invariant
                i <= count,
                count == tokens.len() + 1,
                ngrams@.len() == i,
                forall|k: int| 0 <= k < i ==> ngrams@[k]@ == window_at(tokens@, SIZE as nat, k),
            decreases count - i,
        {
            ngrams.push(Self::window(tokens, i));
            i += 1;
        }
        proof {
            assert(views(ngrams@) =~= lift_tailless(tokens@, SIZE as nat));
        }
        ngrams
    }

    /// Reads the sentence back from a sequence of n-grams. The last n-gram
    /// closes the sequence; of the others, windows of start padding are
    /// passed over and the first that touches the end padding ends the
    /// reading.
    pub fn deconstruct(ngrams: &[Self]) -> (tokens: Vec<u64>)
        requires
            SIZE >= 1,
        ensures
            tokens@ == unlift(views(ngrams@)),
    {
        let mut tokens: Vec<u64> = Vec::new();
        if ngrams.len() == 0 {
            return tokens;
        }
        let count: usize = ngrams.len() - 1;
        let ghost windows = views(ngrams@).drop_last();
        let mut i: usize = 0;
        proof {
            assert(windows.skip(0) =~= windows);
        }
        while i < count
            invariant
                SIZE >= 1,
                i <= count,
                count == ngrams.len() - 1,
                windows == views(ngrams@).drop_last(),
                collect(windows) == tokens@ + collect(windows.skip(i as int)),
            decreases count - i,
        {
            let ngram = &ngrams[i];
            proof {
                assert(windows.skip(i as int)[0] == ngram@);
                assert(windows.skip(i as int).drop_first() =~= windows.skip(i + 1));
            }
            if ngram.is_start() {
            } else if ngram.contains_end() {
                proof {
                    assert(tokens@ + Seq::<u64>::empty() =~= tokens@);
                }
                return tokens;
            } else {
                let ghost before = tokens@;
                tokens.push(ngram.0[SIZE - 1]);
                proof {
                    assert(before + (seq![ngram@.last()] + collect(windows.skip(i + 1)))
                        =~= tokens@ + collect(windows.skip(i + 1)));
                }
            }
            i += 1;
        }
        proof {
            assert(windows.skip(i as int) =~= Seq::<Seq<u64>>::empty());
            assert(tokens@ + Seq::<u64>::empty() =~= tokens@);
        }
        tokens
    }
}

/// A window that is read as a token of the sentence: neither start padding
/// throughout nor touching the end padding.
pub open spec fn plain_window(window: Seq<u64>) -> bool {
    !all_start(window) && !has_end(window)
}

/// Every window of the lifting that ends on a token of the sentence is read
/// as that token.
pub open spec fn readable(tokens: Seq<u64>, n: nat) -> bool {
    forall|i: int| 1 <= i <= tokens.len() ==> plain_window(#[trigger] window_at(tokens, n, i))
}

/// A scan that meets a window touching the end padding at position `k`, or
/// runs out of windows there, collects at most `k` tokens: exactly the last
/// slots of the first `k` windows where all of them are plain, fewer where
/// one of them is not.
proof fn lemma_collect_upto(windows: Seq<Seq<u64>>, k: int)
    requires
        0 <= k <= windows.len(),
        k < windows.len() ==> has_end(windows[k]) && !all_start(windows[k]),
    ensures
        collect(windows).len() <= k,
        (forall|i: int| 0 <= i < k ==> plain_window(windows[i])) ==> collect(windows) == Seq::new(
            k as nat,
            |i: int| windows[i].last(),
        ),
        (exists|i: int| 0 <= i < k && !plain_window(windows[i])) ==> collect(windows).len() < k,
    decreases windows.len(),
{
    if k > 0 {
        let rest = windows.drop_first();
        lemma_collect_upto(rest, k - 1);
        assert(forall|i: int| 0 <= i < k - 1 ==> rest[i] == windows[i + 1]);
        if plain_window(windows[0]) {
            if forall|i: int| 0 <= i < k ==> plain_window(windows[i]) {
                assert forall|i: int| 0 <= i < k - 1 implies plain_window(rest[i]) by {
                    assert(rest[i] == windows[i + 1]);
                }
                assert(collect(windows) =~= Seq::new(k as nat, |i: int| windows[i].last()));
            }
            if exists|i: int| 0 <= i < k && !plain_window(windows[i]) {
                let bad = choose|i: int| 0 <= i < k && !plain_window(windows[i]);
                assert(!plain_window(rest[bad - 1]));
            }
        }
    }
}

/// A sentence without padding tokens is readable at every order.
pub proof fn lemma_plain_sentence_readable(tokens: Seq<u64>, n: nat)
    requires
        n >= 1,
        forall|i: int| 0 <= i < tokens.len() ==> tokens[i] != START_TOKEN && tokens[i] != END_TOKEN,
    ensures
        readable(tokens, n),
{
    assert forall|i: int| 1 <= i <= tokens.len() implies plain_window(
        #[trigger] window_at(tokens, n, i),
    ) by {
        let window = window_at(tokens, n, i);
        assert(window[n - 1] == tokens[i - 1]);
    }
}

/// Reading back the lifting of a sentence gives the sentence again, at every
/// order from one up, exactly when the sentence is readable: a sentence
/// that holds an end token, or start tokens where a whole window falls on
/// them, comes back shorter.
pub proof fn lemma_round_trip(tokens: Seq<u64>, n: nat)
    requires
        n >= 1,
    ensures
        unlift(lift(tokens, n)) == tokens <==> readable(tokens, n),
{
    let windows = lift(tokens, n).drop_last();
    let rest = windows.drop_first();
    let m = tokens.len() as int;
    assert(all_start(windows[0]));
    assert(collect(windows) == collect(rest));
    assert(forall|i: int| 0 <= i < rest.len() ==> rest[i] == window_at(tokens, n, i + 1));
    if m < rest.len() {
        assert(rest[m][n - 1] == END_TOKEN);
    }
    lemma_collect_upto(rest, m);
    if readable(tokens, n) {
        assert forall|i: int| 0 <= i < m implies plain_window(rest[i]) by {
            assert(rest[i] == window_at(tokens, n, i + 1));
        }
        assert(collect(rest) =~= tokens);
    } else {
        let bad = choose|i: int| 1 <= i <= tokens.len() && !plain_window(#[trigger] window_at(tokens, n, i));
        assert(!plain_window(rest[bad - 1]));
    }
}

/// Reading back the tailless lifting of a sentence gives the sentence
/// without its last token, exactly when that shorter sentence is readable;
/// it is then a prefix of the sentence.
pub proof fn lemma_tailless_round_trip(tokens: Seq<u64>, n: nat)
    requires
        n >= 1,
        tokens.len() >= 1,
    ensures
        unlift(lift_tailless(tokens, n)) == tokens.drop_last() <==> readable(tokens.drop_last(), n),
        readable(tokens.drop_last(), n) ==> unlift(lift_tailless(tokens, n)).is_prefix_of(tokens),
{
    let shorter = tokens.drop_last();
    let windows = lift_tailless(tokens, n).drop_last();
    let rest = windows.drop_first();
    let m = shorter.len() as int;
    assert(all_start(windows[0]));
    assert(collect(windows) == collect(rest));
    assert forall|i: int| 0 <= i < rest.len() implies rest[i] == window_at(shorter, n, i + 1) by {
        assert(rest[i] =~= window_at(shorter, n, i + 1));
    }
    lemma_collect_upto(rest, m);
    if readable(shorter, n) {
        assert forall|i: int| 0 <= i < m implies plain_window(rest[i]) by {
            assert(rest[i] == window_at(shorter, n, i + 1));
        }
        assert(collect(rest) =~= shorter);
    } else {
        let bad = choose|i: int| 1 <= i <= shorter.len() && !plain_window(#[trigger] window_at(shorter, n, i));
        assert(!plain_window(rest[bad - 1]));
    }
}

/// The tailless lifting of the empty sentence is read back as the empty
/// sentence.
pub proof fn lemma_tailless_round_trip_empty(n: nat)
    ensures
        unlift(lift_tailless(Seq::<u64>::empty(), n)) == Seq::<u64>::empty(),
{
    assert(lift_tailless(Seq::<u64>::empty(), n).drop_last() =~= Seq::<Seq<u64>>::empty());
}

} // verus!
