use vstd::prelude::*;
use std::collections::HashMap;

verus! {

broadcast use vstd::std_specs::hash::group_hash_axioms;

/// The hash of nothing.
pub const HASH_SEED: u64 = 0xcbf2_9ce4_8422_2325;

/// The factor by which a hash is spread after each part.
pub const HASH_FACTOR: u64 = 0x0000_0100_0000_01b3;

/// The hash `hash` with `part` taken in.
pub open spec fn hash_step(hash: u64, part: u64) -> u64 {
    vstd::wrapping::u64_specs::wrapping_mul(hash ^ part, HASH_FACTOR)
}

/// The hash of a sequence of tokens.
pub open spec fn hash_of_tokens(tokens: Seq<u64>) -> u64
    decreases tokens.len(),
{
    if tokens.len() == 0 {
        HASH_SEED
    } else {
        hash_step(hash_of_tokens(tokens.drop_last()), tokens.last())
    }
}

/// The hash of a sequence of bytes.
pub open spec fn hash_of_bytes(bytes: Seq<u8>) -> u64
    decreases bytes.len(),
{
    if bytes.len() == 0 {
        HASH_SEED
    } else {
        hash_step(hash_of_bytes(bytes.drop_last()), bytes.last() as u64)
    }
}

/// The hash of a word: that of its bytes in UTF-8.
pub open spec fn hash_of_word(word: Seq<char>) -> u64 {
    hash_of_bytes(vstd::utf8::encode_utf8(word))
}

/// The hash of a sequence of tokens.
pub fn hash_tokens(tokens: &[u64]) -> (hash: u64)
    ensures
        hash == hash_of_tokens(tokens@),
{
    let mut hash: u64 = HASH_SEED;
    let mut i: usize = 0;
    proof {
        assert(tokens@.take(0) =~= Seq::<u64>::empty());
    }
    while i < tokens.len()
        invariant
            i <= tokens.len(),
            hash == hash_of_tokens(tokens@.take(i as int)),
        decreases tokens.len() - i,
    {
        proof {
            assert(tokens@.take(i + 1).drop_last() =~= tokens@.take(i as int));
            assert(tokens@.take(i + 1).last() == tokens@[i as int]);
        }
        hash = (hash ^ tokens[i]).wrapping_mul(HASH_FACTOR);
        i += 1;
    }
    proof {
        assert(tokens@.take(i as int) =~= tokens@);
    }
    hash
}

/// The hash of a word.
pub fn hash_word(word: &str) -> (hash: u64)
    ensures
        hash == hash_of_word(word@),
{
    let bytes = word.as_bytes();
    let mut hash: u64 = HASH_SEED;
    let mut i: usize = 0;
    proof {
        assert(bytes@.take(0) =~= Seq::<u8>::empty());
    }
    while i < bytes.len()
        invariant
            i <= bytes.len(),
            hash == hash_of_bytes(bytes@.take(i as int)),
        decreases bytes.len() - i,
    {
        proof {
            assert(bytes@.take(i + 1).drop_last() =~= bytes@.take(i as int));
            assert(bytes@.take(i + 1).last() == bytes@[i as int]);
        }
        hash = (hash ^ bytes[i] as u64).wrapping_mul(HASH_FACTOR);
        i += 1;
    }
    proof {
        assert(bytes@.take(i as int) =~= bytes@);
    }
    hash
}

/// For each hash the places, in a list kept elsewhere, of the entries with
/// that hash.
#[derive(Debug)]
pub struct Index {
    pub(crate) buckets: HashMap<u64, Vec<usize>>,
}

impl Index {
    /// The places listed under `hash`.
    pub open(crate) spec fn bucket(self, hash: u64) -> Seq<usize> {
        if self.buckets@.contains_key(hash) {
            self.buckets@[hash]@
        } else {
            Seq::empty()
        }
    }

    /// The index lists the places of a list whose entries have the hashes
    /// `hashes`: each place under the hash of its entry, and nothing else.
    pub open(crate) spec fn indexes(self, hashes: Seq<u64>) -> bool {
        &&& forall|i: int| 0 <= i < hashes.len() ==> self.bucket(#[trigger] hashes[i]).contains(i as usize)
        &&& forall|hash: u64, k: int|
            0 <= k < self.bucket(hash).len() ==> (#[trigger] self.bucket(hash)[k]) < hashes.len()
                && hashes[self.bucket(hash)[k] as int] == hash
    }

    /// An index of nothing.
    pub fn new() -> (index: Self)
        ensures
            index.indexes(Seq::empty()),
            forall|hash: u64| index.bucket(hash) == Seq::<usize>::empty(),
    {
        Index { buckets: HashMap::new() }
    }

    /// The places listed under `hash`.
    pub fn places(&self, hash: u64) -> (places: Option<&Vec<usize>>)
        ensures
            match places {
                Some(found) => found@ == self.bucket(hash),
                None => self.bucket(hash) == Seq::<usize>::empty(),
            },
    {
        self.buckets.get(&hash)
    }

    /// Lists `place` under `hash`.
    pub fn add(&mut self, hash: u64, place: usize)
        ensures
            final(self).bucket(hash) == old(self).bucket(hash).push(place),
            forall|other: u64| other != hash ==> final(self).bucket(other) == old(self).bucket(other),
    {
        let mut places = match self.buckets.remove(&hash) {
            Some(places) => places,
            None => Vec::new(),
        };
        places.push(place);
        self.buckets.insert(hash, places);
    }

    /// An index that lists the next place of a list stays an index of the
    /// list with one more entry.
    pub proof fn lemma_add(before: Index, after: Index, hashes: Seq<u64>, hash: u64)
        requires
            before.indexes(hashes),
            hashes.len() <= usize::MAX,
            after.bucket(hash) == before.bucket(hash).push(hashes.len() as usize),
            forall|other: u64| other != hash ==> after.bucket(other) == before.bucket(other),
        ensures
            after.indexes(hashes.push(hash)),
    {
        let longer = hashes.push(hash);
        assert forall|i: int| 0 <= i < longer.len() implies after.bucket(#[trigger] longer[i]).contains(
            i as usize,
        ) by {
            if i < hashes.len() {
                assert(before.bucket(hashes[i]).contains(i as usize));
                let k = before.bucket(hashes[i]).index_of(i as usize);
                if hashes[i] == hash {
                    assert(after.bucket(hash)[k] == i as usize);
                }
            } else {
                assert(after.bucket(hash)[before.bucket(hash).len() as int] == i as usize);
            }
        }
        assert forall|other: u64, k: int| 0 <= k < after.bucket(other).len() implies (#[trigger] after.bucket(
            other,
        )[k]) < longer.len() && longer[after.bucket(other)[k] as int] == other by {
            if other == hash {
                if k < before.bucket(hash).len() {
                    assert(after.bucket(hash)[k] == before.bucket(hash)[k]);
                }
            } else {
                assert(after.bucket(other)[k] == before.bucket(other)[k]);
            }
        }
    }
}

} // verus!
