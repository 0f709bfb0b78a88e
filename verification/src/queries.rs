//! Search queries: groups of words with a minimum-match count, built
//! from raw text by splitting on whitespace and punctuation.

use vstd::prelude::*;
use vstd::utf8::{encode_scalar, encode_utf8};

verus! {

/// True for the characters that separate words: Unicode white space
/// and ASCII punctuation.
pub open spec fn is_separator(c: char) -> bool {
    let u = c as u32;
    ||| (0x9 <= u <= 0xD)
    ||| u == 0x20
    ||| u == 0x85
    ||| u == 0xA0
    ||| u == 0x1680
    ||| (0x2000 <= u <= 0x200A)
    ||| u == 0x2028
    ||| u == 0x2029
    ||| u == 0x202F
    ||| u == 0x205F
    ||| u == 0x3000
    ||| (0x21 <= u <= 0x2F)
    ||| (0x3A <= u <= 0x40)
    ||| (0x5B <= u <= 0x60)
    ||| (0x7B <= u <= 0x7E)
}

/// The length of the separator-free run at the front of `t`.
pub open spec fn run_len(t: Seq<char>) -> nat
    decreases t.len(),
{
    if t.len() == 0 || is_separator(t[0]) {
        0
    } else {
        1 + run_len(t.skip(1))
    }
}

/// The run at the front never reaches past the end of the sequence.
proof fn lemma_run_len_le(t: Seq<char>)
    ensures
        run_len(t) <= t.len(),
    decreases t.len(),
{
    if t.len() == 0 || is_separator(t[0]) {
    } else {
        lemma_run_len_le(t.skip(1));
    }
}

#[via_fn]
proof fn split_words_decreases(t: Seq<char>) {
    lemma_run_len_le(t);
}

/// The words of `t`: the maximal separator-free runs, kept only when
/// their UTF-8 encoding is at least three bytes long, in order of
/// appearance.
pub open spec fn split_words(t: Seq<char>) -> Seq<Seq<char>>
    decreases t.len(),
    via split_words_decreases
{
    if t.len() == 0 {
        Seq::empty()
    } else if is_separator(t[0]) {
        split_words(t.skip(1))
    } else {
        let r = run_len(t) as int;
        let rest = split_words(t.skip(r));
        if encode_utf8(t.take(r)).len() >= 3 {
            seq![t.take(r)] + rest
        } else {
            rest
        }
    }
}

/// The UTF-8 encoding of a sequence grows by the last character's
/// encoding.
proof fn lemma_utf8_push(s: Seq<char>, c: char)
    ensures
        encode_utf8(s.push(c)).len() == encode_utf8(s).len() + encode_scalar(c as u32).len(),
    decreases s.len(),
{
    if s.len() == 0 {
        assert(s.push(c)[0] == c);
        assert(s.push(c).drop_first() =~= Seq::<char>::empty());
        assert(encode_utf8(s.push(c)) == encode_scalar(c as u32) + encode_utf8(
            Seq::<char>::empty(),
        ));
        assert(encode_utf8(Seq::<char>::empty()) =~= Seq::<u8>::empty());
        assert(encode_utf8(s) =~= Seq::<u8>::empty());
    } else {
        assert(s.push(c)[0] == s[0]);
        assert(s.push(c).drop_first() =~= s.drop_first().push(c));
        lemma_utf8_push(s.drop_first(), c);
        assert(encode_utf8(s.push(c)) == encode_scalar(s[0] as u32) + encode_utf8(
            s.drop_first().push(c),
        ));
        assert(encode_utf8(s) == encode_scalar(s[0] as u32) + encode_utf8(s.drop_first()));
    }
}

/// A prefix never has more UTF-8 bytes than the whole sequence.
proof fn lemma_utf8_prefix(t: Seq<char>, k: int)
    requires
        0 <= k <= t.len(),
    ensures
        encode_utf8(t.take(k)).len() <= encode_utf8(t).len(),
    decreases t.len() - k,
{
    if k == t.len() {
        assert(t.take(k) =~= t);
    } else {
        assert(t.take(k + 1) =~= t.take(k).push(t[k]));
        lemma_utf8_push(t.take(k), t[k]);
        lemma_utf8_prefix(t, k + 1);
    }
}

/// The UTF-8 byte length of one character; mirrors `encode_scalar`.
fn char_utf8_len(c: char) -> (r: usize)
    ensures
        r == encode_scalar(c as u32).len(),
        1 <= r <= 4,
{
    let u = c as u32;
    if u < 0x80 {
        1
    } else if u < 0x800 {
        2
    } else if u < 0x10000 {
        3
    } else {
        4
    }
}

/// The run at the front of `t` ends exactly at the first separator.
proof fn lemma_run_len(t: Seq<char>, k: int)
    requires
        0 <= k <= t.len(),
        forall|j: int| 0 <= j < k ==> !is_separator(t[j]),
        k == t.len() || is_separator(t[k]),
    ensures
        run_len(t) == k,
    decreases k,
{
    if k == 0 {
    } else {
        assert(!is_separator(t[0]));
        lemma_run_len(t.skip(1), k - 1);
    }
}

/// True when `c` separates words; mirrors `is_separator`.
pub fn is_word_separator(c: char) -> (r: bool)
    ensures
        r == is_separator(c),
{
    let u = c as u32;
    (0x9 <= u && u <= 0xD) || u == 0x20 || u == 0x85 || u == 0xA0 || u == 0x1680 || (0x2000 <= u
        && u <= 0x200A) || u == 0x2028 || u == 0x2029 || u == 0x202F || u == 0x205F || u == 0x3000
        || (0x21 <= u && u <= 0x2F) || (0x3A <= u && u <= 0x40) || (0x5B <= u && u <= 0x60) || (0x7B
        <= u && u <= 0x7E)
}

/// Splits `s` into its words: the maximal separator-free runs of at
/// least three UTF-8 bytes.
pub fn split_text(s: &str) -> (r: Vec<String>)
    ensures
        r.deep_view() == split_words(s@),
{
    let n = s.unicode_len();
    let mut words: Vec<String> = Vec::new();
    let mut pos: usize = 0;
    proof {
        assert(s@.skip(0) =~= s@);
        assert(words.deep_view() + split_words(s@) =~= split_words(s@));
    }
    while pos < n
        invariant
            n == s@.len(),
            pos <= n,
            words.deep_view() + split_words(s@.skip(pos as int)) == split_words(s@),
        decreases n - pos,
    {
        let c = s.get_char(pos);
        if is_word_separator(c) {
            proof {
                assert(s@.skip(pos as int).skip(1) =~= s@.skip(pos as int + 1));
                assert(split_words(s@.skip(pos as int)) == split_words(s@.skip(pos as int + 1)));
            }
            pos += 1;
        } else {
            let start = pos;
            let mut end = pos + 1;
            while end < n && !is_word_separator(s.get_char(end))
                invariant
                    n == s@.len(),
                    start < end <= n,
                    forall|j: int| start <= j < end ==> !is_separator(s@[j]),
                decreases n - end,
            {
                end += 1;
            }
            proof {
                let t = s@.skip(start as int);
                assert forall|j: int| 0 <= j < end - start implies !is_separator(t[j]) by {
                    assert(t[j] == s@[start + j]);
                }
                if end < n {
                    assert(is_separator(t[end - start]));
                }
                lemma_run_len(t, end - start);
                assert(t.skip(end - start) =~= s@.skip(end as int));
                assert(t.take(end - start) =~= s@.subrange(start as int, end as int));
            }
            let mut blen: usize = 0;
            let mut bk: usize = start;
            proof {
                assert(s@.subrange(start as int, start as int) =~= Seq::<char>::empty());
            }
            while bk < end && blen < 3
                invariant
                    n == s@.len(),
                    start <= bk <= end <= n,
                    blen == encode_utf8(s@.subrange(start as int, bk as int)).len(),
                    blen <= 6,
                decreases end - bk,
            {
                let c = s.get_char(bk);
                let cl = char_utf8_len(c);
                proof {
                    assert(s@.subrange(start as int, bk as int + 1) =~= s@.subrange(
                        start as int,
                        bk as int,
                    ).push(s@[bk as int]));
                    lemma_utf8_push(s@.subrange(start as int, bk as int), s@[bk as int]);
                }
                blen = blen + cl;
                bk += 1;
            }
            let keep = blen >= 3;
            proof {
                let w = s@.subrange(start as int, end as int);
                if keep {
                    assert(s@.subrange(start as int, bk as int) =~= w.take(bk - start));
                    lemma_utf8_prefix(w, bk - start);
                    assert(encode_utf8(w).len() >= 3);
                } else {
                    assert(bk == end);
                    assert(s@.subrange(start as int, bk as int) =~= w);
                    assert(encode_utf8(w).len() < 3);
                }
            }
            let ghost words_before = words.deep_view();
            if keep {
                let w = s.substring_char(start, end).to_owned();
                words.push(w);
                proof {
                    assert(words.deep_view() =~= words_before.push(s@.subrange(
                        start as int,
                        end as int,
                    )));
                }
            }
            proof {
                let t = s@.skip(start as int);
                if keep {
                    assert(encode_utf8(t.take(end - start)).len() >= 3);
                    assert(split_words(t) == seq![t.take(end - start)] + split_words(
                        s@.skip(end as int),
                    ));
                    assert(words.deep_view() + split_words(s@.skip(end as int)) =~= words_before
                        + split_words(t));
                } else {
                    assert(encode_utf8(t.take(end - start)).len() < 3);
                    assert(split_words(t) == split_words(s@.skip(end as int)));
                }
            }
            pos = end;
        }
    }
    proof {
        assert(s@.skip(pos as int) =~= Seq::<char>::empty());
        assert(split_words(s@.skip(pos as int)) =~= Seq::<Seq<char>>::empty());
        assert(words.deep_view() =~= words.deep_view() + split_words(s@.skip(pos as int)));
    }
    words
}

/// A group of queries, ordered from the best to the worst. Each entry
/// pairs the words to look for with the least number of them that must
/// match.
#[derive(Debug)]
pub struct SearchQueries {
    pub inner: Vec<(Vec<String>, usize)>,
}

impl SearchQueries {
    /// Wraps ready-made word lists.
    pub fn from_inner(inner: Vec<(Vec<String>, usize)>) -> (r: Self)
        ensures
            r.inner@ == inner@,
    {
        SearchQueries { inner }
    }

    /// Splits the text into words and builds a single query in which
    /// every word is required.
    pub fn from_raw_text(text: &str) -> (r: Self)
        ensures
            r.inner@.len() == 1,
            r.inner@[0].0.deep_view() == split_words(text@),
            r.inner@[0].1 == split_words(text@).len(),
    {
        let words = split_text(text);
        let words_len = words.len();
        proof {
            assert(words.deep_view().len() == words@.len());
        }
        let mut inner: Vec<(Vec<String>, usize)> = Vec::new();
        inner.push((words, words_len));
        SearchQueries { inner }
    }

    /// Splits each text of the group into words, building one query
    /// per text, ordered from the best to the worst; every word of a
    /// query is required for it to match.
    pub fn from_raw_text_iter(texts: &Vec<String>) -> (r: Self)
        ensures
            r.inner@.len() == texts@.len(),
            forall|i: int|
                0 <= i < texts@.len() ==> #[trigger] r.inner@[i].0.deep_view() == split_words(
                    texts@[i]@,
                ) && r.inner@[i].1 == split_words(texts@[i]@).len(),
    {
        let mut inner: Vec<(Vec<String>, usize)> = Vec::new();
        let mut i: usize = 0;
        while i < texts.len()
            invariant
                i <= texts@.len(),
                inner@.len() == i,
                forall|k: int|
                    0 <= k < i ==> #[trigger] inner@[k].0.deep_view() == split_words(texts@[k]@)
                        && inner@[k].1 == split_words(texts@[k]@).len(),
            decreases texts@.len() - i,
        {
            let words = split_text(texts[i].as_str());
            let words_len = words.len();
            let ghost inner_before = inner@;
            proof {
                assert(words.deep_view().len() == words@.len());
                assert(texts[i as int]@ == texts@[i as int]@);
                assert(words.deep_view() == split_words(texts@[i as int]@));
            }
            inner.push((words, words_len));
            proof {
                assert forall|k: int| 0 <= k < i + 1 implies #[trigger] inner@[k].0.deep_view()
                    == split_words(texts@[k]@) && inner@[k].1 == split_words(
                    texts@[k]@,
                ).len() by {
                    if k < i {
                        assert(inner@[k] == inner_before[k]);
                        assert(inner_before[k].0.deep_view() == split_words(texts@[k]@));
                        assert(inner_before[k].1 == split_words(texts@[k]@).len());
                    } else {
                        assert(inner@[k].0 == words);
                        assert(inner@[k].1 == words_len);
                        assert(words.deep_view() == split_words(texts@[k]@));
                        assert(words_len == words@.len());
                        assert(words.deep_view().len() == words@.len());
                    }
                }
            }
            i += 1;
        }
        SearchQueries { inner }
    }
}

} // verus!
