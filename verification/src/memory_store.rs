//! A reference in-memory document store. Documents are word lists
//! named by a content id; the level-0 filter is rebuilt from the
//! corpus on every change, so a bit is set exactly when some stored
//! word hashes to it.

use vstd::prelude::*;
use vstd::utf8::encode_utf8;
use crate::codec::{dec_bytes, enc_bytes, pow256};
use crate::filter::Filter;
use crate::peer::{bytes_eq, clone_bytes, contains_string};
use crate::store::{word_present, SearchResult, Store};
use crate::wire::{dec_list_spec, decode_list, enc_list_spec, encode_list, list_enc_ok};

verus! {

/// Model of a stored document.
pub struct MemoryDocV {
    pub cid: Seq<u8>,
    pub words: Seq<Seq<char>>,
}

/// A document of the reference store: a content id and the words it
/// contains.
#[derive(Debug)]
pub struct MemoryDoc {
    /// The content id naming the document across the network.
    pub cid: Vec<u8>,
    /// The words of the document.
    pub words: Vec<String>,
}

impl View for MemoryDoc {
    type V = MemoryDocV;

    open spec fn view(&self) -> MemoryDocV {
        MemoryDocV { cid: self.cid@, words: self.words.deep_view() }
    }
}

impl DeepView for MemoryDoc {
    type V = MemoryDocV;

    open spec fn deep_view(&self) -> MemoryDocV {
        self.view()
    }
}

impl Clone for MemoryDoc {
    fn clone(&self) -> (r: Self)
        ensures
            r.deep_view() == self.deep_view(),
    {
        let mut words: Vec<String> = Vec::new();
        let mut i: usize = 0;
        proof {
            assert(words.deep_view() =~= self.words.deep_view().take(0int));
        }
        while i < self.words.len()
            invariant
                i <= self.words@.len(),
                words.deep_view() == self.words.deep_view().take(i as int),
            decreases self.words@.len() - i,
        {
            let ghost before = words.deep_view();
            let w = self.words[i].clone();
            let ghost wv = w@;
            words.push(w);
            proof {
                assert(wv == self.words.deep_view()[i as int]);
                assert(words.deep_view() =~= before.push(wv));
                assert(before.push(wv) =~= self.words.deep_view().take(i + 1));
            }
            i += 1;
        }
        proof {
            assert(self.words.deep_view().take(self.words@.len() as int) =~= self.words.deep_view());
        }
        MemoryDoc { cid: clone_bytes(&self.cid), words }
    }
}

impl SearchResult for MemoryDoc {
    open spec fn cid_of(m: MemoryDocV) -> Seq<u8> {
        m.cid
    }

    open spec fn bytes_of(m: MemoryDocV) -> Seq<u8> {
        enc_bytes(m.cid) + enc_list_spec::<String>(m.words)
    }

    open spec fn of_bytes(bytes: Seq<u8>) -> Option<MemoryDocV> {
        match dec_bytes(bytes, 0) {
            None => None,
            Some((cid, p)) => {
                match dec_list_spec::<String>(bytes, p) {
                    None => None,
                    Some((words, p2)) => {
                        if p2 == bytes.len() {
                            Some(MemoryDocV { cid, words })
                        } else {
                            None
                        }
                    },
                }
            },
        }
    }

    open spec fn encodable(m: MemoryDocV) -> bool {
        m.cid.len() < pow256(8) && list_enc_ok::<String>(m.words)
    }

    proof fn lemma_roundtrip(m: MemoryDocV) {
        let ec = enc_bytes(m.cid);
        let ew = enc_list_spec::<String>(m.words);
        let bytes = ec + ew;
        assert(Seq::<u8>::empty() + ec + ew =~= bytes);
        crate::codec::lemma_bytes_roundtrip(Seq::<u8>::empty(), m.cid, ew);
        assert(dec_bytes(bytes, 0) == Some((m.cid, ec.len() as int)));
        crate::wire::lemma_list_roundtrip::<String>(m.words, ec, Seq::<u8>::empty());
        assert(ec + ew + Seq::<u8>::empty() =~= bytes);
        assert(dec_list_spec::<String>(bytes, ec.len() as int) == Some(
            (m.words, ec.len() + ew.len() as int),
        ));
        assert((MemoryDocV { cid: m.cid, words: m.words }) == m);
    }

    fn cid(&self) -> (r: Vec<u8>) {
        clone_bytes(&self.cid)
    }

    fn into_bytes(self) -> (r: Vec<u8>) {
        let mut out: Vec<u8> = Vec::new();
        crate::codec::encode_bytes(&mut out, &self.cid);
        encode_list::<String>(&mut out, &self.words);
        proof {
            assert(out@ =~= Self::bytes_of(self.deep_view()));
        }
        out
    }

    fn from_bytes(bytes: &Vec<u8>) -> (r: Option<Self>) {
        let (cid, p) = match crate::codec::decode_bytes(bytes, 0) {
            None => {
                return None;
            },
            Some(x) => x,
        };
        let (words, p2) = match decode_list::<String>(bytes, p) {
            None => {
                return None;
            },
            Some(x) => x,
        };
        if p2 != bytes.len() {
            return None;
        }
        Some(MemoryDoc { cid, words })
    }
}

/// The positions a word hashes to: a single slot drawn from a 32-bit
/// rolling hash of its characters, reduced into the filter's range.
pub open spec fn mem_hash<const N: usize>(word: Seq<char>) -> Seq<usize> {
    if N == 0 {
        seq![0usize]
    } else {
        seq![(word_fold(word) % mem_modulus::<N>()) as usize]
    }
}

/// The modulus used to reduce the rolling hash: the number of filter
/// bits, capped at the hash's own range.
pub open spec fn mem_modulus<const N: usize>() -> u64 {
    if N >= 0x2000_0000 {
        0x1_0000_0000u64
    } else {
        (8 * N) as u64
    }
}

/// A 32-bit rolling hash of a character sequence.
pub open spec fn word_fold(s: Seq<char>) -> u64
    decreases s.len(),
{
    if s.len() == 0 {
        5381u64
    } else {
        (((word_fold(s.drop_last()) * 31) + (s.last() as u32)) % 0x1_0000_0000) as u64
    }
}

/// The rolling hash stays below the 32-bit bound.
pub proof fn lemma_word_fold_bound(s: Seq<char>)
    ensures
        word_fold(s) < 0x1_0000_0000,
    decreases s.len(),
{
    if s.len() == 0 {
    } else {
        lemma_word_fold_bound(s.drop_last());
    }
}

/// True when some word of the document hashes to bit `b`.
pub open spec fn doc_covers<const N: usize>(m: MemoryDocV, b: int) -> bool {
    exists|w: int| 0 <= w < m.words.len() && mem_hash::<N>(#[trigger] m.words[w]).contains(
        b as usize,
    )
}

/// True when some word of some document of the corpus hashes to bit
/// `b`.
pub open spec fn corpus_covers<const N: usize>(docs: Seq<MemoryDocV>, b: int) -> bool {
    exists|d: int| 0 <= d < docs.len() && doc_covers::<N>(#[trigger] docs[d], b)
}

/// The corpus without the documents named by `cid`.
pub open spec fn drop_cid(docs: Seq<MemoryDocV>, cid: Seq<u8>) -> Seq<MemoryDocV> {
    docs.filter(|m: MemoryDocV| m.cid != cid)
}

/// The corpus without the documents named by any listed id: `drop_cid`
/// folded over the list, first id first.
pub open spec fn drop_cids(docs: Seq<MemoryDocV>, cids: Seq<Seq<u8>>) -> Seq<MemoryDocV>
    decreases cids.len(),
{
    if cids.len() == 0 {
        docs
    } else {
        drop_cids(drop_cid(docs, cids[0]), cids.skip(1))
    }
}

/// Folding one more id drops that id from the folded corpus.
proof fn lemma_drop_cids_push(docs: Seq<MemoryDocV>, cids: Seq<Seq<u8>>, cid: Seq<u8>)
    ensures
        drop_cids(docs, cids.push(cid)) == drop_cid(drop_cids(docs, cids), cid),
    decreases cids.len(),
{
    if cids.len() == 0 {
        assert(cids.push(cid)[0] == cid);
        assert(cids.push(cid).skip(1) =~= Seq::<Seq<u8>>::empty());
        assert(drop_cids(docs, cids.push(cid)) == drop_cids(
            drop_cid(docs, cid),
            Seq::<Seq<u8>>::empty(),
        ));
        assert(drop_cids(drop_cid(docs, cid), Seq::<Seq<u8>>::empty()) == drop_cid(docs, cid));
        assert(drop_cids(docs, cids) == docs);
    } else {
        assert(cids.push(cid)[0] == cids[0]);
        assert(cids.push(cid).skip(1) =~= cids.skip(1).push(cid));
        assert(drop_cids(docs, cids.push(cid)) == drop_cids(
            drop_cid(docs, cids[0]),
            cids.skip(1).push(cid),
        ));
        lemma_drop_cids_push(drop_cid(docs, cids[0]), cids.skip(1), cid);
        assert(drop_cids(docs, cids) == drop_cids(drop_cid(docs, cids[0]), cids.skip(1)));
    }
}

/// How many of the query words the document holds.
pub open spec fn match_count(m: MemoryDocV, words: Seq<Seq<char>>) -> nat {
    words.filter(|w: Seq<char>| m.words.contains(w)).len()
}

/// The documents of the corpus holding at least `min_matching` of the
/// query words, in corpus order.
pub open spec fn mem_search_spec(
    docs: Seq<MemoryDocV>,
    words: Seq<Seq<char>>,
    min_matching: usize,
) -> Seq<MemoryDocV> {
    docs.filter(|m: MemoryDocV| match_count(m, words) >= min_matching)
}

/// The reference store: the corpus and its level-0 filter.
#[derive(Debug)]
pub struct MemoryStore<const N: usize> {
    /// The stored documents, in insertion order.
    pub docs: Vec<MemoryDoc>,
    /// The level-0 filter covering the corpus.
    pub filter: Filter<N>,
}

/// Computes the level-0 filter of a corpus: bit `b` is set exactly
/// when some word of some document hashes to it.
fn corpus_filter<const N: usize>(docs: &Vec<MemoryDoc>) -> (f: Filter<N>)
    requires
        1 <= N <= usize::MAX / 8,
    ensures
        f.wf(),
        f@.len() == 8 * N,
        forall|b: int| 0 <= b < f@.len() ==> f@[b] == corpus_covers::<N>(docs.deep_view(), b),
{
    let mut f = Filter::<N>::new();
    let mut d: usize = 0;
    while d < docs.len()
        invariant
            1 <= N <= usize::MAX / 8,
            f.wf(),
            f@.len() == 8 * N,
            d <= docs@.len(),
            docs.deep_view().len() == docs@.len(),
            forall|b: int|
                0 <= b < f@.len() && #[trigger] f@[b] ==> corpus_covers::<N>(
                    docs.deep_view().take(d as int),
                    b,
                ),
            forall|dd: int, t: int|
                0 <= dd < d && 0 <= t < docs.deep_view()[dd].words.len() ==> word_present(
                    f@,
                    mem_hash::<N>(#[trigger] docs.deep_view()[dd].words[t]),
                ),
        decreases docs@.len() - d,
    {
        let ghost before_doc = f@;
        let doc = &docs[d];
        let mut w: usize = 0;
        while w < doc.words.len()
            invariant
                1 <= N <= usize::MAX / 8,
                f.wf(),
                f@.len() == 8 * N,
                w <= doc.words@.len(),
                doc.words.deep_view().len() == doc.words@.len(),
                before_doc.len() == f@.len(),
                forall|b: int|
                    0 <= b < f@.len() && #[trigger] f@[b] ==> before_doc[b] || exists|t: int|
                        0 <= t < w && mem_hash::<N>(#[trigger] doc.words.deep_view()[t]).contains(
                            b as usize,
                        ),
                forall|b: int| 0 <= b < f@.len() && #[trigger] before_doc[b] ==> f@[b],
                forall|t: int|
                    0 <= t < w ==> word_present(
                        f@,
                        mem_hash::<N>(#[trigger] doc.words.deep_view()[t]),
                    ),
            decreases doc.words@.len() - w,
        {
            let ghost before_word = f@;
            f.add_word::<MemoryStore<N>>(doc.words[w].as_str());
            proof {
                let wv = doc.words.deep_view()[w as int];
                assert(doc.words[w as int]@ == wv);
                let h = mem_hash::<N>(wv);
                assert forall|b: int| 0 <= b < f@.len() && #[trigger] f@[b] implies before_doc[b]
                    || exists|t: int|
                    0 <= t < w + 1 && mem_hash::<N>(#[trigger] doc.words.deep_view()[t]).contains(
                        b as usize,
                    ) by {
                    if !before_word[b] {
                        assert(h.contains(b as usize));
                        assert(mem_hash::<N>(doc.words.deep_view()[w as int]).contains(
                            b as usize,
                        ));
                    } else {
                        if !before_doc[b] {
                            let t = choose|t: int|
                                0 <= t < w && mem_hash::<N>(
                                    #[trigger] doc.words.deep_view()[t],
                                ).contains(b as usize);
                            assert(mem_hash::<N>(doc.words.deep_view()[t]).contains(b as usize));
                        }
                    }
                }
                assert forall|t: int| 0 <= t < w + 1 implies word_present(
                    f@,
                    mem_hash::<N>(#[trigger] doc.words.deep_view()[t]),
                ) by {
                    let idxs = mem_hash::<N>(doc.words.deep_view()[t]);
                    assert forall|j: int| 0 <= j < idxs.len() implies idxs[j] < f@.len()
                        && f@[idxs[j] as int] by {
                        if t < w {
                            assert(word_present(before_word, idxs));
                            assert(before_word[idxs[j] as int]);
                            assert(f@[idxs[j] as int]);
                        } else {
                            <MemoryStore<N> as Store<N>>::lemma_hash_bounds(
                                doc.words.deep_view()[t],
                            );
                            assert(idxs.contains(idxs[j]));
                            assert(idxs[j] < 8 * N);
                            assert(f@[idxs[j] as int]);
                        }
                    }
                }
            }
            w += 1;
        }
        proof {
            let prefix = docs.deep_view().take(d as int);
            let ext = docs.deep_view().take(d + 1);
            assert(ext =~= prefix.push(docs.deep_view()[d as int]));
            assert(doc.deep_view() == docs.deep_view()[d as int]);
            assert forall|b: int| 0 <= b < f@.len() && #[trigger] f@[b] implies corpus_covers::<N>(
                ext,
                b,
            ) by {
                if before_doc[b] {
                    assert(corpus_covers::<N>(prefix, b));
                    let dd = choose|dd: int|
                        0 <= dd < prefix.len() && doc_covers::<N>(#[trigger] prefix[dd], b);
                    assert(ext[dd] == prefix[dd]);
                    assert(doc_covers::<N>(ext[dd], b));
                } else {
                    let t = choose|t: int|
                        0 <= t < doc.words.deep_view().len() && mem_hash::<N>(
                            #[trigger] doc.words.deep_view()[t],
                        ).contains(b as usize);
                    assert(doc.deep_view().words[t] == doc.words.deep_view()[t]);
                    assert(doc_covers::<N>(doc.deep_view(), b));
                    assert(ext[d as int] == doc.deep_view());
                    assert(doc_covers::<N>(ext[d as int], b));
                }
            }
            assert forall|dd: int, t: int|
                0 <= dd < d + 1 && 0 <= t < docs.deep_view()[dd].words.len() implies word_present(
                f@,
                mem_hash::<N>(#[trigger] docs.deep_view()[dd].words[t]),
            ) by {
                if dd < d {
                    let idxs = mem_hash::<N>(docs.deep_view()[dd].words[t]);
                    assert(word_present(before_doc, idxs));
                    assert forall|j: int| 0 <= j < idxs.len() implies idxs[j] < f@.len()
                        && f@[idxs[j] as int] by {
                        assert(before_doc[idxs[j] as int]);
                    }
                } else {
                    assert(docs.deep_view()[dd] == doc.deep_view());
                    assert(docs.deep_view()[dd].words[t] == doc.words.deep_view()[t]);
                }
            }
        }
        d += 1;
    }
    proof {
        assert(docs.deep_view().take(docs@.len() as int) =~= docs.deep_view());
        assert forall|b: int| 0 <= b < f@.len() implies f@[b] == corpus_covers::<N>(
            docs.deep_view(),
            b,
        ) by {
            if corpus_covers::<N>(docs.deep_view(), b) {
                let dd = choose|dd: int|
                    0 <= dd < docs.deep_view().len() && doc_covers::<N>(
                        #[trigger] docs.deep_view()[dd],
                        b,
                    );
                let t = choose|t: int|
                    0 <= t < docs.deep_view()[dd].words.len() && mem_hash::<N>(
                        #[trigger] docs.deep_view()[dd].words[t],
                    ).contains(b as usize);
                let idxs = mem_hash::<N>(docs.deep_view()[dd].words[t]);
                assert(word_present(f@, idxs));
                let j = choose|j: int| 0 <= j < idxs.len() && idxs[j] == b as usize;
                assert(f@[idxs[j] as int]);
            }
        }
    }
    f
}

impl<const N: usize> MemoryStore<N> {
    /// The store's invariant: the filter is well formed and its bits
    /// cover exactly the corpus.
    pub open spec fn wf(&self) -> bool {
        &&& 1 <= N <= usize::MAX / 8
        &&& self.filter.wf()
        &&& self.filter@.len() == 8 * N
        &&& forall|b: int|
            0 <= b < self.filter@.len() ==> self.filter@[b] == corpus_covers::<N>(
                self.docs.deep_view(),
                b,
            )
    }

    /// An empty store with an all-zero filter.
    pub fn new() -> (r: Self)
        requires
            1 <= N <= usize::MAX / 8,
        ensures
            r.wf(),
            r.docs@.len() == 0,
    {
        let docs: Vec<MemoryDoc> = Vec::new();
        let filter = corpus_filter::<N>(&docs);
        MemoryStore { docs, filter }
    }

    /// Adds a document to the corpus and refreshes the filter.
    pub fn insert_document(&mut self, doc: MemoryDoc)
        requires
            old(self).wf(),
        ensures
            final(self).wf(),
            final(self).docs.deep_view() == old(self).docs.deep_view().push(doc.deep_view()),
    {
        self.docs.push(doc);
        self.filter = corpus_filter::<N>(&self.docs);
    }

    /// Adds several documents to the corpus.
    pub fn insert_documents(&mut self, docs: Vec<MemoryDoc>)
        requires
            old(self).wf(),
        ensures
            final(self).wf(),
            final(self).docs.deep_view() == old(self).docs.deep_view() + docs.deep_view(),
    {
        let mut docs = docs;
        let ghost added = docs.deep_view();
        self.docs.append(&mut docs);
        self.filter = corpus_filter::<N>(&self.docs);
        proof {
            assert(self.docs.deep_view() =~= old(self).docs.deep_view() + added);
        }
    }

    /// Removes every document with the given content id and refreshes
    /// the filter.
    pub fn remove_document(&mut self, cid: &Vec<u8>)
        requires
            old(self).wf(),
        ensures
            final(self).wf(),
            final(self).docs.deep_view() == drop_cid(old(self).docs.deep_view(), cid@),
    {
        let mut kept: Vec<MemoryDoc> = Vec::new();
        let mut i: usize = 0;
        proof {
            reveal(Seq::filter);
            assert(drop_cid(self.docs.deep_view().take(0int), cid@)
                =~= Seq::<MemoryDocV>::empty());
        }
        while i < self.docs.len()
            invariant
                i <= self.docs@.len(),
                self.docs.deep_view().len() == self.docs@.len(),
                kept.deep_view() == drop_cid(self.docs.deep_view().take(i as int), cid@),
            decreases self.docs@.len() - i,
        {
            let ghost prefix = self.docs.deep_view().take(i as int);
            let keep = !bytes_eq(&self.docs[i].cid, cid);
            if keep {
                let d = self.docs[i].clone();
                kept.push(d);
            }
            proof {
                reveal(Seq::filter);
                let ext = self.docs.deep_view().take(i + 1);
                assert(ext.drop_last() =~= prefix);
                assert(ext.last() == self.docs.deep_view()[i as int]);
                if keep {
                    assert(kept.deep_view() =~= drop_cid(prefix, cid@).push(
                        self.docs.deep_view()[i as int],
                    ));
                }
            }
            i += 1;
        }
        proof {
            assert(self.docs.deep_view().take(self.docs@.len() as int) =~= self.docs.deep_view());
        }
        self.docs = kept;
        self.filter = corpus_filter::<N>(&self.docs);
    }

    /// Removes every document whose content id is listed.
    pub fn remove_documents(&mut self, cids: &Vec<Vec<u8>>)
        requires
            old(self).wf(),
        ensures
            final(self).wf(),
            final(self).docs.deep_view() == drop_cids(
                old(self).docs.deep_view(),
                cids.deep_view(),
            ),
    {
        let mut i: usize = 0;
        proof {
            assert(cids.deep_view().take(0int) =~= Seq::<Seq<u8>>::empty());
        }
        while i < cids.len()
            invariant
                self.wf(),
                i <= cids@.len(),
                cids.deep_view().len() == cids@.len(),
                self.docs.deep_view() == drop_cids(
                    old(self).docs.deep_view(),
                    cids.deep_view().take(i as int),
                ),
            decreases cids@.len() - i,
        {
            let ghost prefix = cids.deep_view().take(i as int);
            self.remove_document(&cids[i]);
            proof {
                assert(cids[i as int]@ == cids.deep_view()[i as int]);
                assert(cids.deep_view().take(i + 1) =~= prefix.push(cids.deep_view()[i as int]));
                lemma_drop_cids_push(
                    old(self).docs.deep_view(),
                    prefix,
                    cids.deep_view()[i as int],
                );
            }
            i += 1;
        }
        proof {
            assert(cids.deep_view().take(cids@.len() as int) =~= cids.deep_view());
        }
    }

    /// Empties the corpus and the filter.
    pub fn clear_documents(&mut self)
        requires
            old(self).wf(),
        ensures
            final(self).wf(),
            final(self).docs@.len() == 0,
    {
        self.docs = Vec::new();
        self.filter = corpus_filter::<N>(&self.docs);
    }

    /// How many of the query words this document holds.
    fn count_matches(doc: &MemoryDoc, words: &Vec<String>) -> (r: usize)
        ensures
            r == match_count(doc.deep_view(), words.deep_view()),
    {
        let mut count: usize = 0;
        let mut j: usize = 0;
        proof {
            reveal(Seq::filter);
            assert(match_count(doc.deep_view(), words.deep_view().take(0int)) == 0);
        }
        while j < words.len()
            invariant
                j <= words@.len(),
                words.deep_view().len() == words@.len(),
                count == match_count(doc.deep_view(), words.deep_view().take(j as int)),
                count <= j,
            decreases words@.len() - j,
        {
            let ghost prefix = words.deep_view().take(j as int);
            let present = contains_string(&doc.words, &words[j]);
            proof {
                reveal(Seq::filter);
                let ext = words.deep_view().take(j + 1);
                assert(ext.drop_last() =~= prefix);
                assert(ext.last() == words.deep_view()[j as int]);
                assert(words[j as int]@ == words.deep_view()[j as int]);
                prefix.lemma_filter_len(|w: Seq<char>| doc.deep_view().words.contains(w));
            }
            if present {
                count += 1;
            }
            j += 1;
        }
        proof {
            assert(words.deep_view().take(words@.len() as int) =~= words.deep_view());
        }
        count
    }
}

impl<const N: usize> Store<N> for MemoryStore<N> {
    type SearchResult = MemoryDoc;

    open spec fn inv(&self) -> bool {
        self.wf()
    }

    open spec fn hash_spec(word: Seq<char>) -> Seq<usize> {
        mem_hash::<N>(word)
    }

    open spec fn filter_spec(&self) -> Seq<bool> {
        self.filter@
    }

    open spec fn search_spec(&self, words: Seq<Seq<char>>, min_matching: usize) -> Seq<
        MemoryDocV,
    > {
        mem_search_spec(self.docs.deep_view(), words, min_matching)
    }

    proof fn lemma_hash_bounds(word: Seq<char>) {
        if N >= 1 {
            lemma_word_fold_bound(word);
            let m = mem_modulus::<N>();
            assert(m > 0);
            assert(word_fold(word) % m < m) by (nonlinear_arith)
                requires
                    m > 0,
            ;
            if N >= 0x2000_0000 {
                assert(0x1_0000_0000 <= 8 * N) by (nonlinear_arith)
                    requires
                        N >= 0x2000_0000,
                ;
            }
        }
    }

    fn hash_word(word: &str) -> (r: Vec<usize>) {
        let n = word.unicode_len();
        let mut h: u64 = 5381;
        let mut i: usize = 0;
        proof {
            assert(word@.take(0int) =~= Seq::<char>::empty());
        }
        while i < n
            invariant
                n == word@.len(),
                i <= n,
                h == word_fold(word@.take(i as int)),
                h < 0x1_0000_0000,
            decreases n - i,
        {
            let c = word.get_char(i);
            proof {
                lemma_word_fold_bound(word@.take(i as int));
                assert(word@.take(i + 1).drop_last() =~= word@.take(i as int));
                assert(word@.take(i + 1).last() == word@[i as int]);
            }
            h = ((h * 31) + (c as u32) as u64) % 0x1_0000_0000;
            i += 1;
        }
        proof {
            assert(word@.take(n as int) =~= word@);
        }
        let mut r: Vec<usize> = Vec::new();
        if N == 0 {
            r.push(0usize);
            proof {
                assert(r@ =~= mem_hash::<N>(word@));
            }
        } else {
            let m: u64 = if N >= 0x2000_0000 {
                0x1_0000_0000u64
            } else {
                (8 * N) as u64
            };
            proof {
                assert(8 * N <= usize::MAX || N >= 0x2000_0000) by (nonlinear_arith)
                    requires
                        N < 0x2000_0000 ==> 8 * N < 0x1_0000_0000,
                ;
                assert(N < 0x2000_0000 ==> 8 * N < 0x1_0000_0000) by (nonlinear_arith);
                assert(m == mem_modulus::<N>());
                assert(m > 0);
            }
            let idx = h % m;
            r.push(idx as usize);
            proof {
                assert(idx % m < m) by (nonlinear_arith)
                    requires
                        m > 0,
                ;
                assert(r@ =~= mem_hash::<N>(word@));
            }
        }
        r
    }

    fn get_filter(&self) -> (f: Filter<N>) {
        if self.filter.bytes.len() == N {
            self.filter.clone()
        } else {
            Filter::<N>::new()
        }
    }

    fn search(&self, words: &Vec<String>, min_matching: usize) -> (r: Vec<MemoryDoc>) {
        let mut r: Vec<MemoryDoc> = Vec::new();
        let mut d: usize = 0;
        proof {
            reveal(Seq::filter);
            assert(mem_search_spec(self.docs.deep_view().take(0int), words.deep_view(),
                min_matching) =~= Seq::<MemoryDocV>::empty());
        }
        while d < self.docs.len()
            invariant
                d <= self.docs@.len(),
                self.docs.deep_view().len() == self.docs@.len(),
                r.deep_view() == mem_search_spec(
                    self.docs.deep_view().take(d as int),
                    words.deep_view(),
                    min_matching,
                ),
            decreases self.docs@.len() - d,
        {
            let ghost prefix = self.docs.deep_view().take(d as int);
            let count = Self::count_matches(&self.docs[d], words);
            proof {
                reveal(Seq::filter);
                let ext = self.docs.deep_view().take(d + 1);
                assert(ext.drop_last() =~= prefix);
                assert(ext.last() == self.docs.deep_view()[d as int]);
            }
            if count >= min_matching {
                let doc = self.docs[d].clone();
                r.push(doc);
                proof {
                    assert(r.deep_view() =~= mem_search_spec(prefix, words.deep_view(),
                        min_matching).push(self.docs.deep_view()[d as int]));
                }
            }
            d += 1;
        }
        proof {
            assert(self.docs.deep_view().take(self.docs@.len() as int) =~= self.docs.deep_view());
        }
        r
    }
}

/// Law: every word of every stored document tests positive in the
/// store's level-0 filter.
pub proof fn lemma_stored_word_covered<const N: usize>(s: MemoryStore<N>, d: int, w: int)
    requires
        s.wf(),
        N >= 1,
        0 <= d < s.docs.deep_view().len(),
        0 <= w < s.docs.deep_view()[d].words.len(),
    ensures
        word_present(s.filter@, mem_hash::<N>(s.docs.deep_view()[d].words[w])),
{
    let word = s.docs.deep_view()[d].words[w];
    let idxs = mem_hash::<N>(word);
    <MemoryStore<N> as Store<N>>::lemma_hash_bounds(word);
    assert forall|j: int| 0 <= j < idxs.len() implies idxs[j] < s.filter@.len()
        && s.filter@[idxs[j] as int] by {
        assert(idxs.contains(idxs[j]));
        assert(doc_covers::<N>(s.docs.deep_view()[d], idxs[j] as int));
        assert(corpus_covers::<N>(s.docs.deep_view(), idxs[j] as int));
    }
}

/// Law: two stores over the same corpus have the same filter bits; in
/// particular, adding a document and removing its content id again
/// restores the filter, as long as the id was fresh.
pub proof fn lemma_filter_determined_by_corpus<const N: usize>(a: MemoryStore<N>, b: MemoryStore<
    N,
>)
    requires
        a.wf(),
        b.wf(),
        a.docs.deep_view() == b.docs.deep_view(),
    ensures
        a.filter@ == b.filter@,
{
    assert(a.filter@ =~= b.filter@);
}

} // verus!
