//! The document store: the contract every application store must
//! meet, word-level filter operations, and a reference in-memory
//! store whose level-0 filter provably covers every stored document.

use vstd::prelude::*;
use crate::codec::{dec_bytes, enc_bytes, lemma_bytes_roundtrip, pow256};
use crate::filter::Filter;
use crate::wire::{
    dec_fn, dec_list_spec, dec_seq, decode_list, enc_fn, enc_list_spec, enc_seq, encode_list,
    lemma_dec_seq_unfold, lemma_enc_seq_push, WireItem,
};

verus! {

/// A search hit. Implementations fix a content id that names the
/// document across the network and a byte encoding that survives the
/// round trip through the wire. All contracts speak of the value's
/// deep model.
pub trait SearchResult: Sized + DeepView {
    /// The content id of a result.
    spec fn cid_of(m: Self::V) -> Seq<u8>;

    /// The byte encoding of a result.
    spec fn bytes_of(m: Self::V) -> Seq<u8>;

    /// What reading an encoding back yields.
    spec fn of_bytes(bytes: Seq<u8>) -> Option<Self::V>;

    /// True when the value is small enough to encode faithfully; every
    /// value a process can build is.
    spec fn encodable(m: Self::V) -> bool;

    /// Law: reading the encoding of any encodable value back yields
    /// that value.
    proof fn lemma_roundtrip(m: Self::V)
        requires
            Self::encodable(m),
        ensures
            Self::of_bytes(Self::bytes_of(m)) == Some(m),
    ;

    /// The content id as bytes.
    fn cid(&self) -> (r: Vec<u8>)
        ensures
            r@ == Self::cid_of(self.deep_view()),
    ;

    /// Serialises the result.
    fn into_bytes(self) -> (r: Vec<u8>)
        ensures
            r@ == Self::bytes_of(self.deep_view()),
    ;

    /// Reads a result back from bytes; mirrors `of_bytes` exactly.
    fn from_bytes(bytes: &Vec<u8>) -> (r: Option<Self>)
        ensures
            r is Some <==> Self::of_bytes(bytes@) is Some,
            r matches Some(x) ==> Self::of_bytes(bytes@) == Some(x.deep_view()),
    ;
}

/// The application-supplied document index. It hashes words to bit
/// positions, keeps a level-0 filter covering its documents, and
/// answers queries over them.
pub trait Store<const N: usize>: Sized {
    type SearchResult: SearchResult;

    /// The implementation's internal invariant; constructors establish
    /// it and every operation keeps it.
    spec fn inv(&self) -> bool;

    /// The bit positions a word hashes to.
    spec fn hash_spec(word: Seq<char>) -> Seq<usize>;

    /// The model of the current level-0 filter.
    spec fn filter_spec(&self) -> Seq<bool>;

    /// The results a query yields, in order.
    spec fn search_spec(&self, words: Seq<Seq<char>>, min_matching: usize) -> Seq<
        <Self::SearchResult as DeepView>::V,
    >;

    /// Law: hashing yields at least one position, and every position
    /// falls within the filter's `8 * N` bits.
    proof fn lemma_hash_bounds(word: Seq<char>)
        ensures
            N >= 1 ==> Self::hash_spec(word).len() >= 1,
            N >= 1 ==> forall|i: int|
                0 <= i < Self::hash_spec(word).len() ==> (#[trigger] Self::hash_spec(word)[i])
                    < 8 * N,
    ;

    /// Hashes a word; deterministic, identical on every node.
    fn hash_word(word: &str) -> (r: Vec<usize>)
        ensures
            r@ == Self::hash_spec(word@),
    ;

    /// The current level-0 filter.
    fn get_filter(&self) -> (f: Filter<N>)
        ensures
            f.wf(),
            self.inv() ==> f@ == self.filter_spec(),
    ;

    /// Returns every document for which at least `min_matching` of
    /// `words` are present.
    fn search(&self, words: &Vec<String>, min_matching: usize) -> (r: Vec<Self::SearchResult>)
        ensures
            self.inv() ==> r.deep_view() == self.search_spec(words.deep_view(), min_matching),
    ;
}

/// True when every position of `idxs` indexes a set bit of `bits`.
pub open spec fn word_present(bits: Seq<bool>, idxs: Seq<usize>) -> bool {
    forall|j: int| 0 <= j < idxs.len() ==> idxs[j] < bits.len() && bits[idxs[j] as int]
}

impl<const N: usize> Filter<N> {
    /// Sets every bit the store's hash assigns to `word`.
    pub fn add_word<S: Store<N>>(&mut self, word: &str)
        requires
            old(self).wf(),
            N <= usize::MAX / 8,
        ensures
            final(self).wf(),
            final(self)@.len() == old(self)@.len(),
            forall|i: int|
                0 <= i < final(self)@.len() ==> final(self)@[i] == (old(self)@[i] || S::hash_spec(
                    word@,
                ).contains(i as usize)),
    {
        let idxs = S::hash_word(word);
        let mut j: usize = 0;
        proof {
            assert(8 * N <= usize::MAX) by (nonlinear_arith)
                requires
                    N <= usize::MAX / 8,
            ;
        }
        while j < idxs.len()
            invariant
                self.wf(),
                8 * N <= usize::MAX,
                j <= idxs@.len(),
                idxs@ == S::hash_spec(word@),
                self@.len() == old(self)@.len(),
                forall|i: int|
                    0 <= i < self@.len() ==> self@[i] == (old(self)@[i] || idxs@.take(
                        j as int,
                    ).contains(i as usize)),
            decreases idxs@.len() - j,
        {
            let ghost before = self@;
            let idx = idxs[j];
            self.set_bit(idx, true);
            proof {
                assert forall|i: int| 0 <= i < self@.len() implies self@[i] == (old(self)@[i]
                    || idxs@.take(j + 1).contains(i as usize)) by {
                    assert(0 <= i < 8 * N);
                    assert((i as usize) as int == i);
                    assert(idxs@.take(j + 1) =~= idxs@.take(j as int).push(idxs@[j as int]));
                    if i == idx as int {
                        assert(idxs@.take(j + 1)[j as int] == i as usize);
                        assert(idxs@.take(j + 1).contains(i as usize));
                        assert(self@[i]);
                    } else {
                        assert(self@[i] == before[i]);
                        if idxs@.take(j + 1).contains(i as usize) {
                            let t = choose|t: int|
                                0 <= t < idxs@.take(j + 1).len() && #[trigger] idxs@.take(j + 1)[t]
                                    == i as usize;
                            assert(t != j);
                            assert(idxs@.take(j as int)[t] == i as usize);
                            assert(idxs@.take(j as int).contains(i as usize));
                        }
                        if idxs@.take(j as int).contains(i as usize) {
                            let t = choose|t: int|
                                0 <= t < idxs@.take(j as int).len() && #[trigger] idxs@.take(
                                    j as int,
                                )[t] == i as usize;
                            assert(idxs@.take(j + 1)[t] == i as usize);
                            assert(idxs@.take(j + 1).contains(i as usize));
                        }
                    }
                }
            }
            j += 1;
        }
        proof {
            assert(idxs@.take(idxs@.len() as int) =~= idxs@);
        }
    }

    /// True exactly when every bit the store's hash assigns to `word`
    /// is set.
    pub fn test_word<S: Store<N>>(&self, word: &str) -> (r: bool)
        requires
            self.wf(),
        ensures
            r == word_present(self@, S::hash_spec(word@)),
    {
        let idxs = S::hash_word(word);
        let mut j: usize = 0;
        while j < idxs.len()
            invariant
                self.wf(),
                j <= idxs@.len(),
                idxs@ == S::hash_spec(word@),
                forall|t: int| 0 <= t < j ==> idxs@[t] < self@.len() && self@[idxs@[t] as int],
            decreases idxs@.len() - j,
        {
            if !self.get_bit(idxs[j]) {
                proof {
                    assert(!(idxs@[j as int] < self@.len() && self@[idxs@[j as int] as int]));
                }
                return false;
            }
            j += 1;
        }
        true
    }
}

/// Law: a word just added to a filter tests positive, whatever was in
/// the filter before, as long as the store's hash stays within range.
pub proof fn lemma_added_word_tests_positive(
    before: Seq<bool>,
    after: Seq<bool>,
    idxs: Seq<usize>,
)
    requires
        after.len() == before.len(),
        forall|i: int| 0 <= i < after.len() ==> after[i] == (before[i] || idxs.contains(i as usize)),
        forall|j: int| 0 <= j < idxs.len() ==> (#[trigger] idxs[j]) < after.len(),
    ensures
        word_present(after, idxs),
{
    assert forall|j: int| 0 <= j < idxs.len() implies idxs[j] < after.len() && after[idxs[j] as int] by {
        assert(idxs.contains(idxs[j]));
    }
}

} // verus!
