use vstd::prelude::*;

verus! {

/// Characters with Unicode's `White_Space` property.
pub open spec fn is_white_space(c: char) -> bool {
    let u = c as u32;
    ||| 0x09 <= u <= 0x0D
    ||| u == 0x20
    ||| u == 0x85
    ||| u == 0xA0
    ||| u == 0x1680
    ||| 0x2000 <= u <= 0x200A
    ||| u == 0x2028
    ||| u == 0x2029
    ||| u == 0x202F
    ||| u == 0x205F
    ||| u == 0x3000
}

/// The completed words and the word in progress after reading `s` from the
/// left, words being maximal runs of non-white-space characters.
pub open spec fn words_state(s: Seq<char>) -> (Seq<Seq<char>>, Seq<char>)
    decreases s.len(),
{
    if s.len() == 0 {
        (Seq::empty(), Seq::empty())
    } else {
        let (done, cur) = words_state(s.drop_last());
        if is_white_space(s.last()) {
            (if cur.len() > 0 { done.push(cur) } else { done }, Seq::empty())
        } else {
            (done, cur.push(s.last()))
        }
    }
}

/// The non-empty runs of non-white-space characters of `s`, in order.
pub open spec fn words(s: Seq<char>) -> Seq<Seq<char>> {
    let (done, cur) = words_state(s);
    if cur.len() > 0 {
        done.push(cur)
    } else {
        done
    }
}

/// The completed pieces and the piece in progress after reading `s` from
/// the left, pieces being separated by `d`.
pub open spec fn pieces_state(s: Seq<char>, d: char) -> (Seq<Seq<char>>, Seq<char>)
    decreases s.len(),
{
    if s.len() == 0 {
        (Seq::empty(), Seq::empty())
    } else {
        let (done, cur) = pieces_state(s.drop_last(), d);
        if s.last() == d {
            (done.push(cur), Seq::empty())
        } else {
            (done, cur.push(s.last()))
        }
    }
}

/// The pieces of `s` between occurrences of `d`: one more than there are
/// occurrences, empty pieces included.
pub open spec fn split_on(s: Seq<char>, d: char) -> Seq<Seq<char>> {
    let (done, cur) = pieces_state(s, d);
    done.push(cur)
}

/// Relies on `char::is_whitespace`: true exactly for the characters with the
/// Unicode `White_Space` property.
#[verifier::external_body]
fn is_whitespace_char(c: char) -> (r: bool)
    ensures
        r == is_white_space(c),
{
    c.is_whitespace()
}

/// Splits `text` on white space, dropping empty words.
pub fn tokenize(text: &str) -> (r: Vec<String>)
    ensures
        r.deep_view() == words(text@),
{
    let n = text.unicode_len();
    let mut out: Vec<String> = Vec::new();
    let mut start: usize = 0;
    let mut i: usize = 0;
    while i < n
        invariant
            n == text@.len(),
            start <= i <= n,
            words_state(text@.take(i as int)) == (out.deep_view(), text@.subrange(start as int, i as int)),
        decreases n - i,
    {
        let c = text.get_char(i);
        let ghost prev = out.deep_view();
        proof {
            assert(text@.take(i + 1).drop_last() =~= text@.take(i as int));
            assert(text@.take(i + 1).last() == c);
        }
        if is_whitespace_char(c) {
            if start < i {
                let word = text.substring_char(start, i).to_owned();
                out.push(word);
                assert(out.deep_view() =~= prev.push(text@.subrange(start as int, i as int)));
            }
            start = i + 1;
        } else {
            assert(text@.subrange(start as int, i + 1) =~= text@.subrange(start as int, i as int).push(c));
        }
        i = i + 1;
    }
    assert(text@.take(n as int) =~= text@);
    if start < n {
        let ghost prev = out.deep_view();
        let word = text.substring_char(start, n).to_owned();
        out.push(word);
        assert(out.deep_view() =~= prev.push(text@.subrange(start as int, n as int)));
    }
    out
}

/// Splits `text` at each occurrence of `delimiter`, keeping empty pieces.
pub fn split_on_delimiter(text: &str, delimiter: char) -> (r: Vec<String>)
    ensures
        r.deep_view() == split_on(text@, delimiter),
{
    let n = text.unicode_len();
    let mut out: Vec<String> = Vec::new();
    let mut start: usize = 0;
    let mut i: usize = 0;
    while i < n
        invariant
            n == text@.len(),
            start <= i <= n,
            pieces_state(text@.take(i as int), delimiter) == (out.deep_view(), text@.subrange(start as int, i as int)),
        decreases n - i,
    {
        let c = text.get_char(i);
        let ghost prev = out.deep_view();
        proof {
            assert(text@.take(i + 1).drop_last() =~= text@.take(i as int));
            assert(text@.take(i + 1).last() == c);
        }
        if c == delimiter {
            let piece = text.substring_char(start, i).to_owned();
            out.push(piece);
            assert(out.deep_view() =~= prev.push(text@.subrange(start as int, i as int)));
            start = i + 1;
        } else {
            assert(text@.subrange(start as int, i + 1) =~= text@.subrange(start as int, i as int).push(c));
        }
        i = i + 1;
    }
    assert(text@.take(n as int) =~= text@);
    let ghost prev = out.deep_view();
    let last = text.substring_char(start, n).to_owned();
    out.push(last);
    assert(out.deep_view() =~= prev.push(text@.subrange(start as int, n as int)));
    out
}

} // verus!
