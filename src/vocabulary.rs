use vstd::prelude::*;

use crate::text::{tokenize, words};
use crate::token_map::TokenMap;

verus! {

/// The token that every word outside the vocabulary stands for.
pub const UNKNOWN_TOKEN: &'static str = "<UNK>";

/// The index reserved for [`UNKNOWN_TOKEN`]; real tokens start at `1`.
pub const UNKNOWN_INDEX: u32 = 0;

/// The POSIX class of ASCII punctuation, in the regex crate's syntax.
pub const PUNCTUATION_PATTERN: &'static str = "[[:punct:]]";

/// ASCII punctuation: `!` to `/`, `:` to `@`, `[` to `` ` `` and `{` to `~`.
pub open spec fn is_ascii_punctuation(c: char) -> bool {
    let u = c as u32;
    ||| 0x21 <= u <= 0x2F
    ||| 0x3A <= u <= 0x40
    ||| 0x5B <= u <= 0x60
    ||| 0x7B <= u <= 0x7E
}

/// `s` with every ASCII punctuation character removed.
pub open spec fn strip_punctuation(s: Seq<char>) -> Seq<char> {
    s.filter(|c: char| !is_ascii_punctuation(c))
}

/// The words of every sentence of `corpus` once punctuation is removed, in
/// order, repetitions included.
pub open spec fn corpus_tokens(corpus: Seq<Seq<char>>) -> Seq<Seq<char>>
    decreases corpus.len(),
{
    if corpus.len() == 0 {
        Seq::empty()
    } else {
        corpus_tokens(corpus.drop_last()) + words(strip_punctuation(corpus.last()))
    }
}

/// `s` with each element kept only where it first occurs.
pub open spec fn first_occurrences(s: Seq<Seq<char>>) -> Seq<Seq<char>>
    decreases s.len(),
{
    if s.len() == 0 {
        Seq::empty()
    } else {
        let d = first_occurrences(s.drop_last());
        if d.contains(s.last()) {
            d
        } else {
            d.push(s.last())
        }
    }
}

/// The index of a vocabulary: the unknown token at `0`, then the entry at
/// position `i` at `i + 1`.
pub open spec fn vocabulary_index(vocabulary: Seq<Seq<char>>) -> Map<Seq<char>, u32>
    decreases vocabulary.len(),
{
    if vocabulary.len() == 0 {
        Map::empty().insert(UNKNOWN_TOKEN@, UNKNOWN_INDEX)
    } else {
        vocabulary_index(vocabulary.drop_last()).insert(
            vocabulary.last(),
            vocabulary.len() as u32,
        )
    }
}

pub(crate) proof fn lemma_first_occurrences(s: Seq<Seq<char>>)
    ensures
        first_occurrences(s).no_duplicates(),
        forall|t: Seq<char>| #[trigger] first_occurrences(s).contains(t) <==> s.contains(t),
    decreases s.len(),
{
    if s.len() > 0 {
        let p = s.drop_last();
        lemma_first_occurrences(p);
        let d = first_occurrences(p);
        assert forall|t: Seq<char>| #[trigger] first_occurrences(s).contains(t) <==> s.contains(t) by {
            assert(s =~= p.push(s.last()));
            assert(s.contains(t) <==> (p.contains(t) || t == s.last())) by {
                if s.contains(t) && t != s.last() {
                    let j = choose|j: int| 0 <= j < s.len() && s[j] == t;
                    assert(p[j] == t);
                }
                if p.contains(t) {
                    let j = choose|j: int| 0 <= j < p.len() && p[j] == t;
                    assert(s[j] == t);
                }
                if t == s.last() {
                    assert(s[s.len() - 1] == t);
                }
            }
            if !d.contains(s.last()) {
                assert(d.push(s.last()).contains(t) <==> (d.contains(t) || t == s.last())) by {
                    if d.push(s.last()).contains(t) && t != s.last() {
                        let j = choose|j: int| 0 <= j < d.len() + 1 && d.push(s.last())[j] == t;
                        assert(d[j] == t);
                    }
                    if d.contains(t) {
                        let j = choose|j: int| 0 <= j < d.len() && d[j] == t;
                        assert(d.push(s.last())[j] == t);
                    }
                    if t == s.last() {
                        assert(d.push(s.last())[d.len() as int] == t);
                    }
                }
            }
        }
    }
}

/// Relies on `regex::Regex::new` and `Regex::replace_all`: the class
/// `[[:punct:]]` matches exactly the ASCII punctuation characters, and
/// replacing every match by the empty string removes them.
#[verifier::external_body]
fn remove_matches(pattern: &str, text: &str) -> (r: String)
    requires
        pattern@ == PUNCTUATION_PATTERN@,
    ensures
        r@ == strip_punctuation(text@),
{
    regex::Regex::new(pattern).unwrap().replace_all(text, "").into_owned()
}

/// Whether `s` is among the elements of `v`.
pub(crate) fn contains_string(v: &Vec<String>, s: &String) -> (r: bool)
    ensures
        r == v.deep_view().contains(s@),
{
    let mut i: usize = 0;
    while i < v.len()
        invariant
            i <= v.len(),
            forall|j: int| 0 <= j < i ==> v.deep_view()[j] != s@,
        decreases v.len() - i,
    {
        if v[i] == *s {
            assert(v.deep_view()[i as int] == s@);
            return true;
        }
        i = i + 1;
    }
    false
}

/// The distinct words of a corpus, in the order of their first occurrence,
/// after punctuation is removed from each sentence and it is split on white
/// space.
pub fn make_vocabulary(corpus: &Vec<String>) -> (r: Vec<String>)
    ensures
        r.deep_view() == first_occurrences(corpus_tokens(corpus.deep_view())),
        r.deep_view().no_duplicates(),
        forall|t: Seq<char>| #[trigger]
            r.deep_view().contains(t) <==> corpus_tokens(corpus.deep_view()).contains(t),
{
    let ghost c = corpus.deep_view();
    let mut vocabulary: Vec<String> = Vec::new();
    let mut i: usize = 0;
    while i < corpus.len()
        invariant
            i <= corpus.len(),
            c == corpus.deep_view(),
            vocabulary.deep_view() == first_occurrences(corpus_tokens(c.take(i as int))),
        decreases corpus.len() - i,
    {
        let stripped = remove_matches(PUNCTUATION_PATTERN, corpus[i].as_str());
        let tokens = tokenize(stripped.as_str());
        let ghost before = corpus_tokens(c.take(i as int));
        proof {
            assert(c.take(i + 1).drop_last() =~= c.take(i as int));
            assert(c.take(i + 1).last() == corpus[i as int]@);
        }
        let mut j: usize = 0;
        while j < tokens.len()
            invariant
                j <= tokens.len(),
                tokens.deep_view() == words(strip_punctuation(c[i as int])),
                vocabulary.deep_view() == first_occurrences(before + tokens.deep_view().take(j as int)),
            decreases tokens.len() - j,
        {
            proof {
                assert((before + tokens.deep_view().take(j + 1)).drop_last() =~= before
                    + tokens.deep_view().take(j as int));
                assert((before + tokens.deep_view().take(j + 1)).last() == tokens[j as int]@);
            }
            if !contains_string(&vocabulary, &tokens[j]) {
                let ghost prev = vocabulary.deep_view();
                vocabulary.push(tokens[j].clone());
                assert(vocabulary.deep_view() =~= prev.push(tokens[j as int]@));
            }
            j = j + 1;
        }
        assert(tokens.deep_view().take(j as int) =~= tokens.deep_view());
        i = i + 1;
    }
    assert(c.take(i as int) =~= c);
    proof {
        lemma_first_occurrences(corpus_tokens(c));
    }
    vocabulary
}

/// Maps the unknown token to `0` and each vocabulary entry to its position
/// plus one; a repeated entry keeps the index of its last position.
pub fn create_vocabulary_to_index_mapping(vocabulary: &Vec<String>) -> (r: TokenMap)
    requires
        vocabulary.len() < u32::MAX,
    ensures
        r@ == vocabulary_index(vocabulary.deep_view()),
{
    let ghost v = vocabulary.deep_view();
    let mut mapping = TokenMap::new();
    mapping.insert(UNKNOWN_TOKEN.to_owned(), UNKNOWN_INDEX);
    let mut i: usize = 0;
    while i < vocabulary.len()
        invariant
            i <= vocabulary.len() < u32::MAX,
            v == vocabulary.deep_view(),
            mapping@ == vocabulary_index(v.take(i as int)),
        decreases vocabulary.len() - i,
    {
        proof {
            assert(v.take(i + 1).drop_last() =~= v.take(i as int));
        }
        mapping.insert(vocabulary[i].clone(), i as u32 + 1);
        i = i + 1;
    }
    assert(v.take(i as int) =~= v);
    mapping
}

/// The token index of a vocabulary without repeats that does not hold the
/// unknown token maps that token to `0` and gives the entry at position `i`
/// the index `i + 1`: distinct entries get distinct indices in `1..=N`, and
/// nothing else is mapped.
pub proof fn lemma_token_index_assignment(vocabulary: Seq<Seq<char>>)
    requires
        vocabulary.no_duplicates(),
        !vocabulary.contains(UNKNOWN_TOKEN@),
        vocabulary.len() < u32::MAX,
    ensures
        vocabulary_index(vocabulary).contains_key(UNKNOWN_TOKEN@),
        vocabulary_index(vocabulary)[UNKNOWN_TOKEN@] == UNKNOWN_INDEX,
        forall|i: int|
            0 <= i < vocabulary.len() ==> #[trigger] vocabulary_index(vocabulary).contains_key(
                vocabulary[i],
            ) && vocabulary_index(vocabulary)[vocabulary[i]] == i + 1,
        forall|i: int, j: int|
            0 <= i < vocabulary.len() && 0 <= j < vocabulary.len() && i != j
                ==> vocabulary_index(vocabulary)[#[trigger] vocabulary[i]]
                != vocabulary_index(vocabulary)[#[trigger] vocabulary[j]],
        forall|t: Seq<char>| #[trigger]
            vocabulary_index(vocabulary).contains_key(t) ==> t == UNKNOWN_TOKEN@
                || vocabulary.contains(t),
    decreases vocabulary.len(),
{
    if vocabulary.len() > 0 {
        let p = vocabulary.drop_last();
        assert(p.no_duplicates());
        assert(!p.contains(UNKNOWN_TOKEN@)) by {
            if p.contains(UNKNOWN_TOKEN@) {
                let j = choose|j: int| 0 <= j < p.len() && p[j] == UNKNOWN_TOKEN@;
                assert(vocabulary[j] == UNKNOWN_TOKEN@);
            }
        }
        lemma_token_index_assignment(p);
        assert(vocabulary.last() != UNKNOWN_TOKEN@) by {
            assert(vocabulary[vocabulary.len() - 1] == vocabulary.last());
        }
        assert forall|i: int|
            0 <= i < vocabulary.len() implies #[trigger] vocabulary_index(vocabulary).contains_key(
            vocabulary[i],
        ) && vocabulary_index(vocabulary)[vocabulary[i]] == i + 1 by {
            if i < vocabulary.len() - 1 {
                assert(p[i] == vocabulary[i]);
                assert(vocabulary[i] != vocabulary.last());
            }
        }
        assert forall|t: Seq<char>| #[trigger]
            vocabulary_index(vocabulary).contains_key(t) implies t == UNKNOWN_TOKEN@
            || vocabulary.contains(t) by {
            if t != vocabulary.last() && t != UNKNOWN_TOKEN@ {
                let j = choose|j: int| 0 <= j < p.len() && p[j] == t;
                assert(vocabulary[j] == t);
            } else if t == vocabulary.last() {
                assert(vocabulary[vocabulary.len() - 1] == t);
            }
        }
        lemma_indices_distinct(vocabulary);
    }
}

proof fn lemma_indices_distinct(vocabulary: Seq<Seq<char>>)
    requires
        forall|i: int|
            0 <= i < vocabulary.len() ==> #[trigger] vocabulary_index(vocabulary).contains_key(
                vocabulary[i],
            ) && vocabulary_index(vocabulary)[vocabulary[i]] == i + 1,
    ensures
        forall|i: int, j: int|
            0 <= i < vocabulary.len() && 0 <= j < vocabulary.len() && i != j
                ==> vocabulary_index(vocabulary)[#[trigger] vocabulary[i]]
                != vocabulary_index(vocabulary)[#[trigger] vocabulary[j]],
{
    assert forall|i: int, j: int|
        0 <= i < vocabulary.len() && 0 <= j < vocabulary.len() && i != j
            implies vocabulary_index(vocabulary)[#[trigger] vocabulary[i]]
            != vocabulary_index(vocabulary)[#[trigger] vocabulary[j]] by {
        assert(vocabulary_index(vocabulary).contains_key(vocabulary[i]));
        assert(vocabulary_index(vocabulary).contains_key(vocabulary[j]));
    }
}

/// The token index depends on the ordered vocabulary alone: a vocabulary
/// stored and read back with the same tokens in the same order rebuilds the
/// index used when it was stored.
pub proof fn lemma_reloaded_vocabulary_same_index(stored: Seq<Seq<char>>, reloaded: Seq<Seq<char>>)
    requires
        reloaded == stored,
    ensures
        vocabulary_index(reloaded) == vocabulary_index(stored),
{
}

} // verus!
