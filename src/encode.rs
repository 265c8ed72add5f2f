use vstd::prelude::*;

use crate::errors::{InferenceError, MultiHotEncodeError};
use crate::text::{split_on, split_on_delimiter, tokenize, words};
use crate::token_map::{entries_map, lemma_entries_map_lookup, lookup_or_zero, TokenMap};
use crate::vocabulary::{contains_string, first_occurrences, lemma_first_occurrences};
use std::collections::HashMap;

verus! {

broadcast use vstd::std_specs::hash::group_hash_axioms;

/// The delimiter between the classes of a multi-label row.
pub const LABEL_DELIMITER: char = '|';

/// `v` cut to its first `max_len` elements, or extended with `pad` up to
/// `max_len` elements.
pub open spec fn padded<T>(v: Seq<T>, max_len: nat, pad: T) -> Seq<T> {
    if v.len() >= max_len {
        v.take(max_len as int)
    } else {
        v + Seq::new((max_len - v.len()) as nat, |i: int| pad)
    }
}

/// The indices of `tokens` under `m`, `0` for those it does not map.
pub open spec fn indices_of(tokens: Seq<Seq<char>>, m: Map<Seq<char>, u32>) -> Seq<u32> {
    tokens.map_values(|t: Seq<char>| lookup_or_zero(m, t))
}

/// The fixed-length index sequence of one text: its white-space words
/// mapped to indices, padded with `0` or cut to `max_len`.
pub open spec fn encoded_text(text: Seq<char>, m: Map<Seq<char>, u32>, max_len: nat) -> Seq<u32> {
    padded(indices_of(words(text), m), max_len, 0)
}

/// The encoded rows of `data`, one after another.
pub open spec fn encoded_rows(data: Seq<Seq<char>>, m: Map<Seq<char>, u32>, max_len: nat) -> Seq<u32>
    decreases data.len(),
{
    if data.len() == 0 {
        Seq::empty()
    } else {
        encoded_rows(data.drop_last(), m, max_len) + encoded_text(data.last(), m, max_len)
    }
}

/// The classes that the labels name, row by row and left to right within a
/// row, repetitions included; an empty label names none.
pub open spec fn label_classes(labels: Seq<Seq<char>>, d: char) -> Seq<Seq<char>>
    decreases labels.len(),
{
    if labels.len() == 0 {
        Seq::empty()
    } else {
        label_classes(labels.drop_last(), d) + (if labels.last().len() == 0 {
            Seq::empty()
        } else {
            split_on(labels.last(), d)
        })
    }
}

/// The distinct classes of the labels in the order they are first seen.
pub open spec fn class_order(labels: Seq<Seq<char>>, d: char) -> Seq<Seq<char>> {
    first_occurrences(label_classes(labels, d))
}

/// `0, 1, ..., n - 1`.
pub open spec fn positions(n: nat) -> Seq<u32> {
    Seq::new(n, |i: int| i as u32)
}

/// Each class of `order` mapped to its position; a repeated class keeps its
/// last position.
pub open spec fn class_to_index_of(order: Seq<Seq<char>>) -> Map<Seq<char>, u32> {
    entries_map(order, positions(order.len()))
}

/// Each position of `order` mapped to its class.
pub open spec fn index_to_class_of(order: Seq<Seq<char>>) -> Map<u32, Seq<char>> {
    Map::new(|i: u32| (i as int) < order.len(), |i: u32| order[i as int])
}

/// The class names that a map from indices holds, as character sequences.
pub open spec fn names_view(m: Map<u32, String>) -> Map<u32, Seq<char>> {
    m.map_values(|s: String| s@)
}

/// The first of `pieces` that `m` does not map, if any.
pub open spec fn first_missing(pieces: Seq<Seq<char>>, m: Map<Seq<char>, u32>) -> Option<Seq<char>>
    decreases pieces.len(),
{
    if pieces.len() == 0 {
        None
    } else {
        match first_missing(pieces.drop_last(), m) {
            Some(x) => Some(x),
            None => if m.contains_key(pieces.last()) {
                None
            } else {
                Some(pieces.last())
            },
        }
    }
}

/// `n` zeros with a `1` at the index of each of `pieces`.
pub open spec fn hot(pieces: Seq<Seq<char>>, m: Map<Seq<char>, u32>, n: nat) -> Seq<u32>
    decreases pieces.len(),
{
    if pieces.len() == 0 {
        Seq::new(n, |i: int| 0u32)
    } else {
        let prev = hot(pieces.drop_last(), m, n);
        if (m[pieces.last()] as int) < prev.len() {
            prev.update(m[pieces.last()] as int, 1u32)
        } else {
            prev
        }
    }
}

/// The multi-hot row of one label: all zeros when it is empty, else a `1` at
/// each of its classes; or the first class that `m` does not hold.
pub open spec fn label_row(label: Seq<char>, m: Map<Seq<char>, u32>, d: char) -> Result<Seq<u32>, Seq<char>> {
    if label.len() == 0 {
        Ok(Seq::new(m.dom().len(), |i: int| 0u32))
    } else {
        match first_missing(split_on(label, d), m) {
            Some(x) => Err(x),
            None => Ok(hot(split_on(label, d), m, m.dom().len())),
        }
    }
}

/// The rows of all labels one after another, or the first missing class of
/// the first row that has one.
pub open spec fn multi_hot(labels: Seq<Seq<char>>, m: Map<Seq<char>, u32>, d: char) -> Result<Seq<u32>, Seq<char>>
    decreases labels.len(),
{
    if labels.len() == 0 {
        Ok(Seq::empty())
    } else {
        match multi_hot(labels.drop_last(), m, d) {
            Err(x) => Err(x),
            Ok(prev) => match label_row(labels.last(), m, d) {
                Err(x) => Err(x),
                Ok(row) => Ok(prev + row),
            },
        }
    }
}

/// The message of the error for a class that the mapping does not hold.
pub open spec fn not_found_message(label: Seq<char>) -> Seq<char> {
    "Label not found: "@ + label
}

/// Pads `vector` with `pad_value` up to `max_padding` elements, or cuts it to
/// its first `max_padding` elements; a vector of that length is returned as
/// it is.
pub fn pad_vector<T: Copy>(vector: Vec<T>, max_padding: usize, pad_value: T) -> (r: Vec<T>)
    ensures
        r@ == padded(vector@, max_padding as nat, pad_value),
        r@.len() == max_padding,
        vector@.len() == max_padding ==> r@ == vector@,
{
    let mut vector = vector;
    let len = vector.len();
    if len > max_padding {
        vector.truncate(max_padding);
    } else if len < max_padding {
        let ghost start = vector@;
        let mut k: usize = len;
        while k < max_padding
            invariant
                len <= k <= max_padding,
                len == start.len(),
                vector@ == start + Seq::new((k - len) as nat, |i: int| pad_value),
            decreases max_padding - k,
        {
            vector.push(pad_value);
            k = k + 1;
            assert(vector@ =~= start + Seq::new((k - len) as nat, |i: int| pad_value));
        }
    }
    assert(padded(vector@, max_padding as nat, pad_value).len() == max_padding);
    proof {
        if len == max_padding {
            assert(vector@.take(max_padding as int) =~= vector@);
        }
    }
    vector
}

/// Relies on `TryFrom<Vec<T>> for [T; N]`: it succeeds exactly when the
/// vector holds `N` elements, and the array then holds them in order.
#[verifier::external_body]
fn vec_into_array<T, const N: usize>(v: Vec<T>) -> (r: Option<[T; N]>)
    ensures
        r is Some <==> v@.len() == N,
        r is Some ==> r->0@ == v@,
{
    v.try_into().ok()
}

/// The elements of `vec` as an array of length `N`, or an error when it
/// holds another number of them.
pub fn convert_to_array<T, const N: usize>(vec: Vec<T>) -> (r: Result<[T; N], InferenceError>)
    ensures
        r is Ok <==> vec@.len() == N,
        r is Ok ==> r->Ok_0@ == vec@,
{
    match vec_into_array::<T, N>(vec) {
        Some(a) => Ok(a),
        None => Err(InferenceError::ArrayConversionError("Could not convert to array.")),
    }
}

/// The index of each word under `mapping`, `0` for a word it does not hold.
pub fn map_to_indices(words: Vec<String>, mapping: &TokenMap) -> (r: Vec<u32>)
    ensures
        r@.len() == words@.len(),
        forall|i: int| 0 <= i < words@.len() ==> r@[i] == lookup_or_zero(mapping@, #[trigger] words@[i]@),
        r@ == indices_of(words.deep_view(), mapping@),
{
    let mut out: Vec<u32> = Vec::new();
    let mut i: usize = 0;
    while i < words.len()
        invariant
            i <= words.len(),
            out@.len() == i,
            forall|j: int| 0 <= j < i ==> out@[j] == lookup_or_zero(mapping@, #[trigger] words@[j]@),
        decreases words.len() - i,
    {
        let index = match mapping.get(words[i].as_str()) {
            Some(v) => v,
            None => 0,
        };
        out.push(index);
        i = i + 1;
    }
    assert(out@ =~= indices_of(words.deep_view(), mapping@));
    out
}

/// The index of each word under `mapping`, `0` for a word it does not hold.
pub fn map_words_to_indices(words: Vec<&str>, mapping: &TokenMap) -> (r: Vec<u32>)
    ensures
        r@.len() == words@.len(),
        forall|i: int| 0 <= i < words@.len() ==> r@[i] == lookup_or_zero(mapping@, #[trigger] words@[i]@),
{
    let mut out: Vec<u32> = Vec::new();
    let mut i: usize = 0;
    while i < words.len()
        invariant
            i <= words.len(),
            out@.len() == i,
            forall|j: int| 0 <= j < i ==> out@[j] == lookup_or_zero(mapping@, #[trigger] words@[j]@),
        decreases words.len() - i,
    {
        let index = match mapping.get(words[i]) {
            Some(v) => v,
            None => 0,
        };
        out.push(index);
        i = i + 1;
    }
    out
}

/// One text as `max_len` token indices: its white-space words mapped under
/// `mapping`, padded with `0` or cut.
pub fn encode_text(text: &str, mapping: &TokenMap, max_len: usize) -> (r: Vec<u32>)
    ensures
        r@ == encoded_text(text@, mapping@, max_len as nat),
        r@.len() == max_len,
{
    let tokens = tokenize(text);
    let indices = map_to_indices(tokens, mapping);
    pad_vector(indices, max_len, 0)
}

/// Every text of `data` encoded as by [`encode_text`], the rows laid out one
/// after another (row-major, `data.len()` rows of `max_seq_len`).
pub fn encode(data: &Vec<String>, max_seq_len: usize, vocabulary_index_mapping: &TokenMap) -> (r: Vec<u32>)
    ensures
        r@ == encoded_rows(data.deep_view(), vocabulary_index_mapping@, max_seq_len as nat),
{
    let ghost d = data.deep_view();
    let mut out: Vec<u32> = Vec::new();
    let mut i: usize = 0;
    while i < data.len()
        invariant
            i <= data.len(),
            d == data.deep_view(),
            out@ == encoded_rows(d.take(i as int), vocabulary_index_mapping@, max_seq_len as nat),
        decreases data.len() - i,
    {
        let mut row = encode_text(data[i].as_str(), vocabulary_index_mapping, max_seq_len);
        proof {
            assert(d.take(i + 1).drop_last() =~= d.take(i as int));
        }
        out.append(&mut row);
        i = i + 1;
    }
    assert(d.take(i as int) =~= d);
    out
}

/// Every batch encoding has one row of exactly `max_len` indices per text.
pub proof fn lemma_encoded_shape(data: Seq<Seq<char>>, m: Map<Seq<char>, u32>, max_len: nat)
    ensures
        encoded_rows(data, m, max_len).len() == data.len() * max_len,
        forall|i: int|
            0 <= i < data.len() ==> encoded_rows(data, m, max_len).subrange(
                i * max_len,
                (i + 1) * max_len,
            ) == #[trigger] encoded_text(data[i], m, max_len),
    decreases data.len(),
{
    if data.len() > 0 {
        let p = data.drop_last();
        lemma_encoded_shape(p, m, max_len);
        let all = encoded_rows(data, m, max_len);
        let prev = encoded_rows(p, m, max_len);
        assert(data.len() * max_len == p.len() * max_len + max_len) by (nonlinear_arith)
            requires data.len() == p.len() + 1;
        assert forall|i: int|
            0 <= i < data.len() implies all.subrange(i * max_len, (i + 1) * max_len)
            == #[trigger] encoded_text(data[i], m, max_len) by {
            assert((i + 1) * max_len == i * max_len + max_len) by (nonlinear_arith);
            if i < p.len() {
                assert(i * max_len + max_len <= p.len() * max_len) by (nonlinear_arith)
                    requires i < p.len(), 0 <= i;
                assert(0 <= i * max_len) by (nonlinear_arith) requires 0 <= i;
                assert(p[i] == data[i]);
                assert(all.subrange(i * max_len, (i + 1) * max_len) =~= prev.subrange(
                    i * max_len,
                    (i + 1) * max_len,
                ));
            } else {
                assert(i == p.len());
                assert(all.subrange(i * max_len, (i + 1) * max_len) =~= encoded_text(
                    data.last(),
                    m,
                    max_len,
                ));
            }
        }
    }
}

proof fn lemma_class_maps_push(order: Seq<Seq<char>>, x: Seq<char>)
    requires
        order.len() < u32::MAX,
    ensures
        class_to_index_of(order.push(x)) == class_to_index_of(order).insert(x, order.len() as u32),
        index_to_class_of(order.push(x)) == index_to_class_of(order).insert(order.len() as u32, x),
{
    let q = order.push(x);
    assert(q.drop_last() =~= order);
    assert(positions(q.len()).drop_last() =~= positions(order.len()));
    assert(index_to_class_of(q) =~= index_to_class_of(order).insert(order.len() as u32, x));
}

/// Assigns each class named by `labels` the next index from `0` when it is
/// first seen, rows from first to last and the classes of a row (separated
/// by `delimiter`) from left to right; empty labels name no class. Returns
/// the map from class to index and its inverse.
pub fn create_class_mapping_with_delimiter(labels: &Vec<String>, delimiter: char) -> (r: (
    TokenMap,
    HashMap<u32, String>,
))
    requires
        label_classes(labels.deep_view(), delimiter).len() < u32::MAX,
    ensures
        r.0@ == class_to_index_of(class_order(labels.deep_view(), delimiter)),
        names_view(r.1@) == index_to_class_of(class_order(labels.deep_view(), delimiter)),
        class_order(labels.deep_view(), delimiter).no_duplicates(),
{
    let ghost ls = labels.deep_view();
    let mut class_to_index = TokenMap::new();
    let mut index_to_class: HashMap<u32, String> = HashMap::new();
    let mut seen: Vec<String> = Vec::new();
    let mut n_classes: u32 = 0;
    proof {
        assert(names_view(index_to_class@) =~= index_to_class_of(seen.deep_view()));
        assert(class_to_index@ =~= class_to_index_of(seen.deep_view()));
    }
    let mut i: usize = 0;
    while i < labels.len()
        invariant
            i <= labels.len(),
            ls == labels.deep_view(),
            label_classes(ls, delimiter).len() < u32::MAX,
            seen.deep_view() == first_occurrences(label_classes(ls.take(i as int), delimiter)),
            n_classes as int == seen.len(),
            class_to_index@ == class_to_index_of(seen.deep_view()),
            names_view(index_to_class@) == index_to_class_of(seen.deep_view()),
        decreases labels.len() - i,
    {
        let ghost before = label_classes(ls.take(i as int), delimiter);
        proof {
            assert(ls.take(i + 1).drop_last() =~= ls.take(i as int));
            assert(ls.take(i + 1).last() == labels[i as int]@);
            lemma_label_classes_prefix(ls, i as int + 1, delimiter);
        }
        if labels[i].as_str().unicode_len() != 0 {
            let pieces = split_on_delimiter(labels[i].as_str(), delimiter);
            let mut j: usize = 0;
            while j < pieces.len()
                invariant
                    j <= pieces.len(),
                    pieces.deep_view() == split_on(ls[i as int], delimiter),
                    (before + pieces.deep_view()).len() < u32::MAX,
                    seen.deep_view() == first_occurrences(before + pieces.deep_view().take(j as int)),
                    n_classes as int == seen.len(),
                    class_to_index@ == class_to_index_of(seen.deep_view()),
                    names_view(index_to_class@) == index_to_class_of(seen.deep_view()),
                decreases pieces.len() - j,
            {
                proof {
                    assert((before + pieces.deep_view().take(j + 1)).drop_last() =~= before
                        + pieces.deep_view().take(j as int));
                    assert((before + pieces.deep_view().take(j + 1)).last() == pieces[j as int]@);
                    lemma_first_occurrences_len(before + pieces.deep_view().take(j as int));
                    assert((before + pieces.deep_view().take(j as int)).len() < (before
                        + pieces.deep_view()).len());
                }
                if !contains_string(&seen, &pieces[j]) {
                    let ghost old_seen = seen.deep_view();
                    proof {
                        lemma_class_maps_push(old_seen, pieces[j as int]@);
                    }
                    class_to_index.insert(pieces[j].clone(), n_classes);
                    index_to_class.insert(n_classes, pieces[j].clone());
                    seen.push(pieces[j].clone());
                    n_classes = n_classes + 1;
                    proof {
                        assert(seen.deep_view() =~= old_seen.push(pieces[j as int]@));
                        assert(names_view(index_to_class@) =~= index_to_class_of(old_seen).insert(
                            old_seen.len() as u32,
                            pieces[j as int]@,
                        ));
                    }
                }
                j = j + 1;
            }
            assert(pieces.deep_view().take(j as int) =~= pieces.deep_view());
        } else {
            assert(before + Seq::<Seq<char>>::empty() =~= before);
        }
        i = i + 1;
    }
    assert(ls.take(i as int) =~= ls);
    proof {
        lemma_first_occurrences(label_classes(ls, delimiter));
    }
    (class_to_index, index_to_class)
}

proof fn lemma_label_classes_prefix(ls: Seq<Seq<char>>, k: int, d: char)
    requires
        0 <= k <= ls.len(),
    ensures
        label_classes(ls.take(k), d).len() <= label_classes(ls, d).len(),
    decreases ls.len(),
{
    if k < ls.len() {
        assert(ls.take(k) =~= ls.drop_last().take(k));
        lemma_label_classes_prefix(ls.drop_last(), k, d);
    } else {
        assert(ls.take(k) =~= ls);
    }
}

proof fn lemma_first_occurrences_len(s: Seq<Seq<char>>)
    ensures
        first_occurrences(s).len() <= s.len(),
    decreases s.len(),
{
    if s.len() > 0 {
        lemma_first_occurrences_len(s.drop_last());
    }
}

/// [`create_class_mapping_with_delimiter`] with [`LABEL_DELIMITER`].
pub fn create_class_mapping_from_labels(labels: &Vec<String>) -> (r: (TokenMap, HashMap<u32, String>))
    requires
        label_classes(labels.deep_view(), LABEL_DELIMITER).len() < u32::MAX,
    ensures
        r.0@ == class_to_index_of(class_order(labels.deep_view(), LABEL_DELIMITER)),
        names_view(r.1@) == index_to_class_of(class_order(labels.deep_view(), LABEL_DELIMITER)),
{
    create_class_mapping_with_delimiter(labels, LABEL_DELIMITER)
}

/// Gives the class name at position `i` the index `i`; returns the map from
/// index to class and the one from class to index.
pub fn create_class_mappings_from_class_names(class_names: Vec<String>) -> (r: (
    HashMap<u32, String>,
    TokenMap,
))
    requires
        class_names.len() < u32::MAX,
    ensures
        names_view(r.0@) == index_to_class_of(class_names.deep_view()),
        r.1@ == class_to_index_of(class_names.deep_view()),
{
    let ghost names = class_names.deep_view();
    let mut index_to_class: HashMap<u32, String> = HashMap::new();
    let mut class_to_index = TokenMap::new();
    proof {
        assert(names_view(index_to_class@) =~= index_to_class_of(names.take(0)));
        assert(class_to_index@ =~= class_to_index_of(names.take(0)));
    }
    let mut i: usize = 0;
    while i < class_names.len()
        invariant
            i <= class_names.len() < u32::MAX,
            names == class_names.deep_view(),
            names_view(index_to_class@) == index_to_class_of(names.take(i as int)),
            class_to_index@ == class_to_index_of(names.take(i as int)),
        decreases class_names.len() - i,
    {
        proof {
            assert(names.take(i + 1) =~= names.take(i as int).push(class_names[i as int]@));
            lemma_class_maps_push(names.take(i as int), class_names[i as int]@);
        }
        index_to_class.insert(i as u32, class_names[i].clone());
        class_to_index.insert(class_names[i].clone(), i as u32);
        proof {
            assert(names_view(index_to_class@) =~= index_to_class_of(names.take(i as int)).insert(
                i as u32,
                class_names[i as int]@,
            ));
        }
        i = i + 1;
    }
    assert(names.take(i as int) =~= names);
    (index_to_class, class_to_index)
}

/// The class index and its inverse built from classes without repeats are
/// exact inverses of each other.
pub proof fn lemma_class_mappings_inverse(order: Seq<Seq<char>>)
    requires
        order.no_duplicates(),
        order.len() < u32::MAX,
    ensures
        forall|k: Seq<char>| #[trigger]
            class_to_index_of(order).contains_key(k) ==> index_to_class_of(order).contains_key(
                class_to_index_of(order)[k],
            ) && index_to_class_of(order)[class_to_index_of(order)[k]] == k,
        forall|i: u32| #[trigger]
            index_to_class_of(order).contains_key(i) ==> class_to_index_of(order).contains_key(
                index_to_class_of(order)[i],
            ) && class_to_index_of(order)[index_to_class_of(order)[i]] == i,
{
    lemma_entries_map_lookup(order, positions(order.len()));
    assert forall|k: Seq<char>| #[trigger]
        class_to_index_of(order).contains_key(k) implies index_to_class_of(order).contains_key(
        class_to_index_of(order)[k],
    ) && index_to_class_of(order)[class_to_index_of(order)[k]] == k by {
        let j = choose|j: int| 0 <= j < order.len() && order[j] == k;
        assert(class_to_index_of(order)[order[j]] == positions(order.len())[j]);
    }
    assert forall|i: u32| #[trigger]
        index_to_class_of(order).contains_key(i) implies class_to_index_of(order).contains_key(
        index_to_class_of(order)[i],
    ) && class_to_index_of(order)[index_to_class_of(order)[i]] == i by {
        let ks = order;
        let vs = positions(order.len());
        assert(entries_map(ks, vs).contains_key(ks[i as int]));
        assert(class_to_index_of(order)[order[i as int]] == positions(order.len())[i as int]);
    }
}

proof fn lemma_first_missing_prefix(p: Seq<Seq<char>>, k: int, m: Map<Seq<char>, u32>)
    requires
        0 <= k <= p.len(),
        first_missing(p.take(k), m) is Some,
    ensures
        first_missing(p, m) == first_missing(p.take(k), m),
    decreases p.len(),
{
    if k < p.len() {
        assert(p.take(k) =~= p.drop_last().take(k));
        lemma_first_missing_prefix(p.drop_last(), k, m);
    } else {
        assert(p.take(k) =~= p);
    }
}

proof fn lemma_multi_hot_prefix(ls: Seq<Seq<char>>, k: int, m: Map<Seq<char>, u32>, d: char)
    requires
        0 <= k <= ls.len(),
        multi_hot(ls.take(k), m, d) is Err,
    ensures
        multi_hot(ls, m, d) == multi_hot(ls.take(k), m, d),
    decreases ls.len(),
{
    if k < ls.len() {
        assert(ls.take(k) =~= ls.drop_last().take(k));
        lemma_multi_hot_prefix(ls.drop_last(), k, m, d);
    } else {
        assert(ls.take(k) =~= ls);
    }
}

proof fn lemma_hot_len(pieces: Seq<Seq<char>>, m: Map<Seq<char>, u32>, n: nat)
    ensures
        hot(pieces, m, n).len() == n,
    decreases pieces.len(),
{
    if pieces.len() > 0 {
        lemma_hot_len(pieces.drop_last(), m, n);
    }
}

/// `n` zeros.
fn zeros(n: usize) -> (r: Vec<u32>)
    ensures
        r@ == Seq::new(n as nat, |i: int| 0u32),
{
    let mut row: Vec<u32> = Vec::new();
    while row.len() < n
        invariant
            row.len() <= n,
            row@ == Seq::new(row.len() as nat, |i: int| 0u32),
        decreases n - row.len(),
    {
        row.push(0);
        assert(row@ =~= Seq::new(row.len() as nat, |i: int| 0u32));
    }
    row
}

/// Encodes each label as a row of `class_to_index.len()` values, `1` at the
/// index of each of its classes (separated by `delimiter`) and `0` elsewhere,
/// all zeros for an empty label, and lays the rows out one after another.
/// Fails, naming it, on the first class that `class_to_index` does not hold.
pub fn multi_hot_encode_with_delimiter(labels: Vec<String>, class_to_index: &TokenMap, delimiter: char) -> (r: Result<Vec<u32>, MultiHotEncodeError>)
    requires
        forall|k: Seq<char>| #[trigger]
            class_to_index@.contains_key(k) ==> class_to_index@[k] < class_to_index@.dom().len(),
    ensures
        match multi_hot(labels.deep_view(), class_to_index@, delimiter) {
            Ok(v) => r is Ok && r->Ok_0@ == v,
            Err(x) => r is Err && r->Err_0.message@ == not_found_message(x),
        },
{
    let ghost ls = labels.deep_view();
    let ghost m = class_to_index@;
    let n_classes = class_to_index.len();
    let mut all_encodings: Vec<u32> = Vec::new();
    let mut i: usize = 0;
    while i < labels.len()
        invariant
            i <= labels.len(),
            ls == labels.deep_view(),
            m == class_to_index@,
            n_classes == m.dom().len(),
            forall|k: Seq<char>| #[trigger] m.contains_key(k) ==> m[k] < m.dom().len(),
            multi_hot(ls.take(i as int), m, delimiter) == Ok::<Seq<u32>, Seq<char>>(all_encodings@),
        decreases labels.len() - i,
    {
        proof {
            assert(ls.take(i + 1).drop_last() =~= ls.take(i as int));
            assert(ls.take(i + 1).last() == labels[i as int]@);
        }
        let mut row = zeros(n_classes);
        if labels[i].as_str().unicode_len() != 0 {
            let pieces = split_on_delimiter(labels[i].as_str(), delimiter);
            let ghost ps = pieces.deep_view();
            let mut j: usize = 0;
            while j < pieces.len()
                invariant
                    j <= pieces.len(),
                    i < labels.len(),
                    ls == labels.deep_view(),
                    ls[i as int].len() != 0,
                    multi_hot(ls.take(i as int), m, delimiter) == Ok::<Seq<u32>, Seq<char>>(all_encodings@),
                    ps == pieces.deep_view(),
                    ps == split_on(ls[i as int], delimiter),
                    m == class_to_index@,
                    n_classes == m.dom().len(),
                    forall|k: Seq<char>| #[trigger] m.contains_key(k) ==> m[k] < m.dom().len(),
                    first_missing(ps.take(j as int), m) is None,
                    row@ == hot(ps.take(j as int), m, n_classes as nat),
                decreases pieces.len() - j,
            {
                proof {
                    assert(ps.take(j + 1).drop_last() =~= ps.take(j as int));
                    assert(ps.take(j + 1).last() == pieces[j as int]@);
                    lemma_hot_len(ps.take(j as int), m, n_classes as nat);
                }
                match class_to_index.get(pieces[j].as_str()) {
                    Some(index) => {
                        row.set(index as usize, 1);
                    },
                    None => {
                        let message = "Label not found: ".to_owned().concat(pieces[j].as_str());
                        proof {
                            assert(!m.contains_key(ps[j as int]));
                            assert(first_missing(ps.take(j + 1), m) == Some(ps[j as int]));
                            lemma_first_missing_prefix(ps, j + 1, m);
                            assert(ls.take(i + 1).drop_last() =~= ls.take(i as int));
                            assert(ls.take(i + 1).last() == ls[i as int]);
                            assert(label_row(ls[i as int], m, delimiter) == Err::<Seq<u32>, Seq<char>>(ps[j as int]));
                            assert(multi_hot(ls.take(i + 1), m, delimiter) == Err::<Seq<u32>, Seq<char>>(pieces[j as int]@));
                            lemma_multi_hot_prefix(ls, i + 1, m, delimiter);
                        }
                        return Err(MultiHotEncodeError::new(message.as_str()));
                    },
                }
                j = j + 1;
            }
            assert(ps.take(j as int) =~= ps);
        }
        all_encodings.append(&mut row);
        i = i + 1;
    }
    assert(ls.take(i as int) =~= ls);
    Ok(all_encodings)
}

/// [`multi_hot_encode_with_delimiter`] with [`LABEL_DELIMITER`].
pub fn multi_hot_encode(labels: Vec<String>, class_to_index: &TokenMap) -> (r: Result<Vec<u32>, MultiHotEncodeError>)
    requires
        forall|k: Seq<char>| #[trigger]
            class_to_index@.contains_key(k) ==> class_to_index@[k] < class_to_index@.dom().len(),
    ensures
        match multi_hot(labels.deep_view(), class_to_index@, LABEL_DELIMITER) {
            Ok(v) => r is Ok && r->Ok_0@ == v,
            Err(x) => r is Err && r->Err_0.message@ == not_found_message(x),
        },
{
    multi_hot_encode_with_delimiter(labels, class_to_index, LABEL_DELIMITER)
}

} // verus!
