use vstd::prelude::*;
use vstd::string::StrSliceExecFns;

verus! {

/// Whether `c` is whitespace: one of the characters that Unicode lists as
/// `White_Space`.
pub open spec fn spec_is_whitespace(c: char) -> bool {
    let code = c as u32;
    ||| 0x0009 <= code <= 0x000d
    ||| code == 0x0020
    ||| code == 0x0085
    ||| code == 0x00a0
    ||| code == 0x1680
    ||| 0x2000 <= code <= 0x200a
    ||| code == 0x2028
    ||| code == 0x2029
    ||| code == 0x202f
    ||| code == 0x205f
    ||| code == 0x3000
}

/// The text that `str::to_lowercase` gives back for `word`.
pub uninterp spec fn spec_to_lowercase(word: Seq<char>) -> Seq<char>;

/// Whether `c` is whitespace.
pub fn is_whitespace(c: char) -> (whitespace: bool)
    ensures
        whitespace == spec_is_whitespace(c),
{
    let code: u32 = c as u32;
    (0x0009 <= code && code <= 0x000d) || code == 0x0020 || code == 0x0085 || code == 0x00a0 || code
        == 0x1680 || (0x2000 <= code && code <= 0x200a) || code == 0x2028 || code == 0x2029 || code
        == 0x202f || code == 0x205f || code == 0x3000
}

/// `str::to_lowercase`: the lowercase form of the word. The contract only
/// names the result.
#[verifier::external_body]
pub(crate) fn to_lowercase(word: &str) -> (lowered: String)
    ensures
        lowered@ == spec_to_lowercase(word@),
{
    word.to_lowercase()
}

/// `text` without the whitespace at its start.
pub open spec fn trimmed_start(text: Seq<char>) -> Seq<char>
    decreases text.len(),
{
    if text.len() > 0 && spec_is_whitespace(text.first()) {
        trimmed_start(text.drop_first())
    } else {
        text
    }
}

/// `text` without the whitespace at its end.
pub open spec fn trimmed_end(text: Seq<char>) -> Seq<char>
    decreases text.len(),
{
    if text.len() > 0 && spec_is_whitespace(text.last()) {
        trimmed_end(text.drop_last())
    } else {
        text
    }
}

/// `text` without the whitespace at its two ends.
pub open spec fn trimmed(text: Seq<char>) -> Seq<char> {
    trimmed_end(trimmed_start(text))
}

/// The pieces of `text` between whitespace, in order: the longest runs of
/// characters that are not whitespace.
pub open spec fn pieces_of(text: Seq<char>) -> Seq<Seq<char>>
    decreases text.len(),
{
    if text.len() == 0 {
        Seq::empty()
    } else {
        let before = pieces_of(text.drop_last());
        if spec_is_whitespace(text.last()) {
            before
        } else if text.len() >= 2 && !spec_is_whitespace(text[text.len() - 2]) {
            before.drop_last().push(before.last().push(text.last()))
        } else {
            before.push(seq![text.last()])
        }
    }
}

/// The parts of `text` before and behind the first `delimiter`; nothing
/// where the text holds none.
pub open spec fn parts_of(text: Seq<char>, delimiter: char) -> Option<(Seq<char>, Seq<char>)> {
    match text.index_of_first(delimiter) {
        Some(at) => Some((text.take(at), text.skip(at + 1))),
        None => None,
    }
}

/// The texts that a vector of strings stands for.
pub open spec fn texts_of(strings: Seq<String>) -> Seq<Seq<char>> {
    Seq::new(strings.len(), |i: int| strings[i]@)
}

/// The characters of a text.
pub fn chars_of(text: &str) -> (chars: Vec<char>)
    ensures
        chars@ == text@,
{
    let mut chars: Vec<char> = Vec::new();
    for c in it: text.chars()
        invariant
            chars@ == it.seq().take(it.index() as int),
            it.seq() == text@,
    {
        chars.push(c);
        proof {
            assert(it.seq().take(it.index() + 1) =~= it.seq().take(it.index() as int).push(c));
        }
    }
    proof {
        assert(text@.take(text@.len() as int) =~= text@);
    }
    chars
}

/// The text without the whitespace at its two ends.
pub fn trim(text: &str) -> (trimmed: String)
    ensures
        trimmed@ == self::trimmed(text@),
{
    let chars = chars_of(text);
    let mut from: usize = 0;
    proof {
        assert(chars@.skip(0) =~= chars@);
    }
    while from < chars.len() && is_whitespace(chars[from])
        invariant
            from <= chars.len(),
            trimmed_start(chars@) == trimmed_start(chars@.skip(from as int)),
        decreases chars.len() - from,
    {
        proof {
            assert(chars@.skip(from as int).drop_first() =~= chars@.skip(from + 1));
        }
        from += 1;
    }
    let ghost started = chars@.skip(from as int);
    let mut to: usize = chars.len();
    proof {
        assert(trimmed_start(chars@) == started);
        assert(started =~= chars@.subrange(from as int, to as int));
    }
    while to > from && is_whitespace(chars[to - 1])
        invariant
            from <= to <= chars.len(),
            trimmed_end(started) == trimmed_end(chars@.subrange(from as int, to as int)),
        decreases to,
    {
        proof {
            assert(chars@.subrange(from as int, to as int).drop_last() =~= chars@.subrange(
                from as int,
                to - 1,
            ));
        }
        to -= 1;
    }
    text.substring_char(from, to).to_owned()
}

/// The pieces of the text between whitespace, in order.
pub fn split_whitespace(text: &str) -> (pieces: Vec<String>)
    ensures
        texts_of(pieces@) == pieces_of(text@),
{
    let chars = chars_of(text);
    let mut pieces: Vec<String> = Vec::new();
    let mut running: bool = false;
    let mut start: usize = 0;
    let mut i: usize = 0;
    proof {
        assert(chars@.take(0) =~= Seq::<char>::empty());
        assert(texts_of(pieces@) =~= Seq::<Seq<char>>::empty());
    }
    while i < chars.len()
        invariant
            i <= chars.len(),
            chars@ == text@,
            running ==> start < i && !spec_is_whitespace(chars@[i - 1]) && pieces_of(chars@.take(i as int))
                == texts_of(pieces@).push(chars@.subrange(start as int, i as int)),
            !running ==> (i == 0 || spec_is_whitespace(chars@[i - 1])) && pieces_of(chars@.take(i as int))
                == texts_of(pieces@),
        decreases chars.len() - i,
    {
        let c = chars[i];
        let ghost seen = chars@.take(i as int);
        let ghost next = chars@.take(i + 1);
        let ghost found = texts_of(pieces@);
        let ghost run = chars@.subrange(start as int, i as int);
        proof {
            assert(next.drop_last() =~= seen);
            assert(next.last() == c);
            if i > 0 {
                assert(next[next.len() - 2] == chars@[i - 1]);
            }
        }
        if is_whitespace(c) {
            if running {
                pieces.push(text.substring_char(start, i).to_owned());
                running = false;
                proof {
                    assert(texts_of(pieces@) =~= found.push(run));
                }
            }
        } else {
            if running {
                proof {
                    assert(found.push(run).drop_last() =~= found);
                    assert(found.push(run).last() == run);
                    assert(chars@.subrange(start as int, i + 1) =~= run.push(c));
                }
            } else {
                start = i;
                running = true;
                proof {
                    assert(chars@.subrange(i as int, i + 1) =~= seq![c]);
                }
            }
        }
        i += 1;
    }
    proof {
        assert(chars@.take(i as int) =~= chars@);
    }
    if running {
        let ghost found = texts_of(pieces@);
        pieces.push(text.substring_char(start, i).to_owned());
        proof {
            assert(texts_of(pieces@) =~= found.push(chars@.subrange(start as int, i as int)));
        }
    }
    pieces
}

/// The parts of the text before and behind the first `delimiter`; nothing
/// where the text holds none.
pub fn split_once(text: &str, delimiter: char) -> (parts: Option<(String, String)>)
    ensures
        match parts {
            Some((before, behind)) => parts_of(text@, delimiter) == Some((before@, behind@)),
            None => parts_of(text@, delimiter).is_none(),
        },
{
    let chars = chars_of(text);
    let mut at: usize = 0;
    proof {
        chars@.index_of_first_ensures(delimiter);
    }
    while at < chars.len() && chars[at] != delimiter
        invariant
            at <= chars.len(),
            forall|k: int| 0 <= k < at ==> chars@[k] != delimiter,
        decreases chars.len() - at,
    {
        at += 1;
    }
    if at < chars.len() {
        let before = text.substring_char(0, at).to_owned();
        let behind = text.substring_char(at + 1, chars.len()).to_owned();
        proof {
            let first = chars@.index_of_first(delimiter).unwrap();
            assert(chars@.contains(delimiter));
            assert(first == at);
            assert(chars@.take(at as int) =~= chars@.subrange(0, at as int));
            assert(chars@.skip(at + 1) =~= chars@.subrange(at + 1, chars@.len() as int));
        }
        Some((before, behind))
    } else {
        None
    }
}

} // verus!
