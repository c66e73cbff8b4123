//! The TF-IDF vectorizer: vocabulary, document frequencies, and the
//! mapping from text to `DocumentVector`.
//!
//! Term indices are append-only: learning new text never renumbers an
//! existing term, so vectors computed earlier stay valid references into
//! the vocabulary.
use vstd::prelude::*;
use vstd::string::StringSliceAdditionalSpecFns;
use crate::fixed::{IDF_MAX, weight_spec, weight_fixed};
use crate::text::{tokenize_spec, filter_stop, filtered_tokens, clone_token, tok_eq};
use crate::vector::{DocumentVector, sum_sq, lemma_sum_sq_push};

verus! {

/// The mathematical content of a `TfIdfVectorizer`.
pub struct VocabView {
    /// The vocabulary: term number `i` is `terms[i]`.
    pub terms: Seq<Seq<u8>>,
    /// How many learned documents contained each term.
    pub dfs: Seq<u64>,
    /// How many documents have been learned.
    pub n_docs: u64,
    /// Tokens excluded from vocabulary and vectors.
    pub stopwords: Seq<Seq<u8>>,
}

/// Vocabulary, document frequencies and stopword set of a TF-IDF model.
#[derive(Debug)]
pub struct TfIdfVectorizer {
    terms: Vec<Vec<u8>>,
    dfs: Vec<u64>,
    n_docs: u64,
    stopwords: Vec<Vec<u8>>,
}

impl View for TfIdfVectorizer {
    type V = VocabView;

    closed spec fn view(&self) -> VocabView {
        VocabView {
            terms: self.terms.deep_view(),
            dfs: self.dfs@,
            n_docs: self.n_docs,
            stopwords: self.stopwords.deep_view(),
        }
    }
}

/// `x + 1`, stopping at the top of the range.
pub open spec fn sat_inc(x: u64) -> u64 {
    if x == u64::MAX {
        x
    } else {
        (x + 1) as u64
    }
}

/// The first index of `t` in `terms`, or `terms.len()` when absent.
pub open spec fn term_index(terms: Seq<Seq<u8>>, t: Seq<u8>) -> int
    decreases terms.len(),
{
    if terms.len() == 0 {
        0
    } else if terms[0] == t {
        0
    } else {
        1 + term_index(terms.drop_first(), t)
    }
}

/// `term_index` lies between 0 and `terms.len()`, and names `t` when it hits.
pub proof fn lemma_term_index_range(terms: Seq<Seq<u8>>, t: Seq<u8>)
    ensures
        0 <= term_index(terms, t) <= terms.len(),
        term_index(terms, t) < terms.len() ==> terms[term_index(terms, t)] == t,
    decreases terms.len(),
{
    if terms.len() > 0 && terms[0] != t {
        lemma_term_index_range(terms.drop_first(), t);
    }
}

/// The tokens of one document under this vocabulary's stopword set.
pub open spec fn doc_tokens(v: VocabView, bytes: Seq<u8>) -> Seq<Seq<u8>> {
    filter_stop(tokenize_spec(bytes), v.stopwords)
}

/// Whether token `p` is the first occurrence of its value in `toks`.
pub open spec fn is_first(toks: Seq<Seq<u8>>, p: int) -> bool {
    forall|q: int| 0 <= q < p ==> toks[q] != toks[p]
}

/// Learning one token: bump its document frequency, or append a new term.
pub open spec fn learn_tok(terms: Seq<Seq<u8>>, dfs: Seq<u64>, t: Seq<u8>) -> (Seq<Seq<u8>>, Seq<
    u64,
>) {
    let i = term_index(terms, t);
    if i < terms.len() {
        (terms, dfs.update(i, sat_inc(dfs[i])))
    } else {
        (terms.push(t), dfs.push(1))
    }
}

/// Learning the first `p` tokens of one document: each distinct token
/// counts once.
pub open spec fn learn_doc(
    terms: Seq<Seq<u8>>,
    dfs: Seq<u64>,
    toks: Seq<Seq<u8>>,
    p: int,
) -> (Seq<Seq<u8>>, Seq<u64>)
    decreases p,
{
    if p <= 0 {
        (terms, dfs)
    } else {
        let prev = learn_doc(terms, dfs, toks, p - 1);
        if is_first(toks, p - 1) {
            learn_tok(prev.0, prev.1, toks[p - 1])
        } else {
            prev
        }
    }
}

/// Learning the first `c` documents of a corpus, in order.
pub open spec fn learn_corpus(v: VocabView, docs: Seq<Seq<char>>, c: int) -> VocabView
    decreases c,
{
    if c <= 0 {
        v
    } else {
        let prev = learn_corpus(v, docs, c - 1);
        let toks = doc_tokens(prev, vstd::utf8::encode_utf8(docs[c - 1]));
        let l = learn_doc(prev.terms, prev.dfs, toks, toks.len() as int);
        VocabView {
            terms: l.0,
            dfs: l.1,
            n_docs: sat_inc(prev.n_docs),
            stopwords: prev.stopwords,
        }
    }
}

/// How many of the first `toks.len()` tokens resolve to vocabulary slot `j`.
pub open spec fn count_at(terms: Seq<Seq<u8>>, toks: Seq<Seq<u8>>, j: int) -> int
    decreases toks.len(),
{
    if toks.len() == 0 {
        0
    } else {
        count_at(terms, toks.drop_last(), j) + if term_index(terms, toks.last()) == j {
            1int
        } else {
            0int
        }
    }
}

/// The sparse entries of the vector for `toks`, over the first `j`
/// vocabulary slots.
pub open spec fn entries_spec(v: VocabView, toks: Seq<Seq<u8>>, j: int) -> Seq<(usize, u64)>
    decreases j,
{
    if j <= 0 {
        Seq::empty()
    } else {
        let rest = entries_spec(v, toks, j - 1);
        let c = count_at(v.terms, toks, j - 1);
        let w = weight_spec(c, toks.len() as int, v.dfs[j - 1] as int, v.n_docs as int);
        if c > 0 && w > 0 {
            rest.push((((j - 1) as usize), (w as u64)))
        } else {
            rest
        }
    }
}

/// The vector a well-formed vectorizer assigns to a text.
pub open spec fn vector_entries(v: VocabView, text: Seq<char>) -> Seq<(usize, u64)> {
    entries_spec(v, doc_tokens(v, vstd::utf8::encode_utf8(text)), v.terms.len() as int)
}

/// Pushing an entry above every index of a sorted run keeps it sorted.
proof fn lemma_sorted_push(s: Seq<(usize, u64)>, x: (usize, u64))
    requires
        forall|k: int| 0 <= k && k + 1 < s.len() ==> (#[trigger] s[k]).0 < s[k + 1].0,
        forall|k: int| 0 <= k < s.len() ==> (#[trigger] s[k]).0 < x.0,
    ensures
        forall|k: int| 0 <= k && k + 1 < s.push(x).len() ==> (#[trigger] s.push(x)[k]).0
            < s.push(x)[k + 1].0,
{
    assert forall|k: int| 0 <= k && k + 1 < s.push(x).len() implies (#[trigger] s.push(x)[k]).0
        < s.push(x)[k + 1].0 by {
        assert(s.push(x)[k] == s[k]);
        if k + 1 < s.len() {
            assert(s.push(x)[k + 1] == s[k + 1]);
        } else {
            assert(s.push(x)[k + 1] == x);
        }
    };
}

/// Find the slot of token `t` in the vocabulary, if any.
fn find_term(terms: &Vec<Vec<u8>>, t: &Vec<u8>) -> (r: Option<usize>)
    ensures
        match r {
            Some(k) => k < terms.deep_view().len() && k as int == term_index(terms.deep_view(), t@),
            None => term_index(terms.deep_view(), t@) == terms.deep_view().len(),
        },
{
    let ghost dv = terms.deep_view();
    let mut i: usize = 0;
    proof {
        assert(dv.skip(0) =~= dv);
    }
    while i < terms.len()
        invariant
            i <= dv.len(),
            dv == terms.deep_view(),
            dv.len() == terms@.len(),
            term_index(dv, t@) == i + term_index(dv.skip(i as int), t@),
        decreases dv.len() - i,
    {
        let ghost s = dv.skip(i as int);
        proof {
            assert(s.len() == dv.len() - i);
            assert(s[0] == dv[i as int]);
            assert(terms.deep_view()[i as int] == terms@[i as int].deep_view());
            assert(terms@[i as int].deep_view() =~= terms@[i as int]@);
            assert(s.drop_first() =~= dv.skip(i as int + 1));
            lemma_term_index_range(s.drop_first(), t@);
        }
        let hit = tok_eq(&terms[i], t);
        proof {
            assert(hit == (terms@[i as int]@ == t@));
            assert(s[0] == terms@[i as int]@);
        }
        if hit {
            proof {
                assert(s[0] == t@);
                assert(term_index(s, t@) == 0);
            }
            return Some(i);
        }
        proof {
            assert(s[0] != t@);
            assert(term_index(s, t@) == 1 + term_index(s.drop_first(), t@));
        }
        i = i + 1;
    }
    proof {
        assert(dv.skip(dv.len() as int) =~= Seq::<Seq<u8>>::empty());
    }
    None
}

impl TfIdfVectorizer {
    /// Structural soundness: one document frequency per term.
    pub open spec fn wf(&self) -> bool {
        self@.terms.len() == self@.dfs.len()
    }

    /// An empty vocabulary with no stopwords.
    pub fn new() -> (r: TfIdfVectorizer)
        ensures
            r.wf(),
            r@.terms.len() == 0,
            r@.dfs.len() == 0,
            r@.n_docs == 0,
            r@.stopwords.len() == 0,
    {
        let r = TfIdfVectorizer {
            terms: Vec::new(),
            dfs: Vec::new(),
            n_docs: 0,
            stopwords: Vec::new(),
        };
        proof {
            assert(r@.terms =~= Seq::<Seq<u8>>::empty());
            assert(r@.stopwords =~= Seq::<Seq<u8>>::empty());
        }
        r
    }

    /// An empty vocabulary that will ignore the given stopword tokens.
    pub fn with_stopwords(stopwords: Vec<Vec<u8>>) -> (r: TfIdfVectorizer)
        ensures
            r.wf(),
            r@ == (VocabView {
                terms: Seq::empty(),
                dfs: Seq::empty(),
                n_docs: 0,
                stopwords: stopwords.deep_view(),
            }),
    {
        let r = TfIdfVectorizer { terms: Vec::new(), dfs: Vec::new(), n_docs: 0, stopwords };
        proof {
            assert(r@.terms =~= Seq::<Seq<u8>>::empty());
            assert(r@.dfs =~= Seq::<u64>::empty());
        }
        r
    }

    /// A copy of the stopword set, token for token.
    pub fn stopwords_copy(&self) -> (r: Vec<Vec<u8>>)
        ensures
            r.deep_view() == self@.stopwords,
    {
        let mut r: Vec<Vec<u8>> = Vec::new();
        let mut i: usize = 0;
        while i < self.stopwords.len()
            invariant
                i <= self.stopwords@.len(),
                r.deep_view() =~~= self.stopwords.deep_view().take(i as int),
            decreases self.stopwords@.len() - i,
        {
            proof {
                assert(self.stopwords.deep_view()[i as int] =~= self.stopwords@[i as int]@);
            }
            let t = clone_token(&self.stopwords[i]);
            let ghost pre = r.deep_view();
            r.push(t);
            proof {
                assert(r.deep_view() =~~= pre.push(self.stopwords.deep_view()[i as int]));
                assert(pre.push(self.stopwords.deep_view()[i as int]) =~~= self.stopwords.deep_view().take(i as int + 1));
            }
            i = i + 1;
        }
        proof {
            assert(self.stopwords.deep_view().take(self.stopwords@.len() as int)
                =~~= self.stopwords.deep_view());
        }
        r
    }

    /// How many terms the vocabulary holds.
    pub fn vocab_len(&self) -> (r: usize)
        ensures
            r == self@.terms.len(),
    {
        self.terms.len()
    }

    /// How many documents have been learned.
    pub fn doc_count(&self) -> (r: u64)
        ensures
            r == self@.n_docs,
    {
        self.n_docs
    }

    /// Extend the vocabulary and the document-frequency counts with every
    /// text of `corpus`, one document each.
    pub fn learn_vocabulary(&mut self, corpus: &Vec<String>)
        requires
            old(self).wf(),
        ensures
            final(self).wf(),
            final(self)@ == learn_corpus(old(self)@, corpus.deep_view(), corpus@.len() as int),
    {
        let ghost v0 = self@;
        let ghost docs = corpus.deep_view();
        let mut i: usize = 0;
        while i < corpus.len()
            invariant
                i <= corpus@.len(),
                docs == corpus.deep_view(),
                self.wf(),
                self@ == learn_corpus(v0, docs, i as int),
            decreases corpus@.len() - i,
        {
            proof {
                assert(docs[i as int] == corpus@[i as int]@);
            }
            let toks = filtered_tokens(&self.stopwords, corpus[i].as_str());
            let ghost tv = toks.deep_view();
            let ghost t0 = self@.terms;
            let ghost d0 = self@.dfs;
            let mut p: usize = 0;
            while p < toks.len()
                invariant
                    p <= toks@.len(),
                    tv == toks.deep_view(),
                    self.wf(),
                    self@.terms.len() == self@.dfs.len(),
                    (self@.terms, self@.dfs) == learn_doc(t0, d0, tv, p as int),
                    self@.n_docs == learn_corpus(v0, docs, i as int).n_docs,
                    self@.stopwords == learn_corpus(v0, docs, i as int).stopwords,
                decreases toks@.len() - p,
            {
                let mut seen = false;
                let mut q: usize = 0;
                while q < p
                    invariant
                        q <= p,
                        p < tv.len(),
                        tv == toks.deep_view(),
                        seen == exists|k: int| 0 <= k < q && tv[k] == tv[p as int],
                    decreases p - q,
                {
                    proof {
                        assert(tv[q as int] =~= toks@[q as int]@);
                        assert(tv[p as int] =~= toks@[p as int]@);
                    }
                    if tok_eq(&toks[q], &toks[p]) {
                        seen = true;
                        assert(tv[q as int] == tv[p as int]);
                    }
                    q = q + 1;
                }
                proof {
                    assert(seen == !is_first(tv, p as int));
                }
                if !seen {
                    proof {
                        assert(tv[p as int] =~= toks@[p as int]@);
                    }
                    match find_term(&self.terms, &toks[p]) {
                        Some(k) => {
                            let cur = self.dfs[k];
                            let nv = if cur < u64::MAX {
                                cur + 1
                            } else {
                                cur
                            };
                            self.dfs[k] = nv;
                            proof {
                                assert(self@.dfs =~= learn_tok(
                                    learn_doc(t0, d0, tv, p as int).0,
                                    learn_doc(t0, d0, tv, p as int).1,
                                    tv[p as int],
                                ).1);
                            }
                        },
                        None => {
                            let t = clone_token(&toks[p]);
                            proof {
                                assert(t@ =~= tv[p as int]);
                            }
                            self.terms.push(t);
                            self.dfs.push(1);
                            proof {
                                assert(self@.terms =~~= learn_doc(t0, d0, tv, p as int).0.push(
                                    tv[p as int],
                                ));
                            }
                        },
                    }
                }
                p = p + 1;
            }
            proof {
                assert(tv =~= doc_tokens(learn_corpus(v0, docs, i as int), vstd::utf8::encode_utf8(
                    docs[i as int],
                )));
            }
            self.n_docs = if self.n_docs < u64::MAX {
                self.n_docs + 1
            } else {
                self.n_docs
            };
            i = i + 1;
        }
        proof {
            assert(docs.len() == corpus@.len());
        }
    }

    /// The TF-IDF vector of `text` under the current vocabulary: term
    /// frequencies of the known tokens, weighted by smoothed inverse
    /// document frequency. Unknown tokens contribute nothing; empty or
    /// fully unknown text yields the zero vector.
    pub fn vectorize(&self, text: &str) -> (r: DocumentVector)
        requires
            self.wf(),
        ensures
            r.wf(),
            r@.entries == vector_entries(self@, text@),
    {
        let toks = filtered_tokens(&self.stopwords, text);
        let ghost tv = toks.deep_view();
        let total = toks.len();
        let mut counts: Vec<u64> = Vec::new();
        let mut z: usize = 0;
        while z < self.terms.len()
            invariant
                z <= self@.terms.len(),
                counts@.len() == z,
                forall|j: int| 0 <= j < z ==> counts@[j] == 0,
            decreases self@.terms.len() - z,
        {
            counts.push(0);
            z = z + 1;
        }
        proof {
            assert forall|j: int| 0 <= j < counts@.len() implies counts@[j] == count_at(
                self@.terms,
                tv.take(0),
                j,
            ) by {
                assert(tv.take(0) =~= Seq::<Seq<u8>>::empty());
            };
        }
        let mut i: usize = 0;
        while i < toks.len()
            invariant
                i <= tv.len(),
                tv == toks.deep_view(),
                tv.len() == toks@.len(),
                counts@.len() == self@.terms.len(),
                forall|j: int| 0 <= j < counts@.len() ==> counts@[j] == count_at(
                    self@.terms,
                    tv.take(i as int),
                    j,
                ),
                forall|j: int| 0 <= j < counts@.len() ==> counts@[j] <= i,
            decreases tv.len() - i,
        {
            let ghost pre = counts@;
            proof {
                assert(tv[i as int] =~= toks@[i as int]@);
                assert(tv.take(i as int + 1).drop_last() =~= tv.take(i as int));
                assert(tv.take(i as int + 1).last() == tv[i as int]);
            }
            match find_term(&self.terms, &toks[i]) {
                Some(k) => {
                    let cur = counts[k];
                    counts[k] = cur + 1;
                },
                None => {
                    proof {
                        lemma_term_index_range(self@.terms, tv[i as int]);
                    }
                },
            }
            i = i + 1;
        }
        proof {
            assert(tv.take(tv.len() as int) =~= tv);
        }
        let mut entries: Vec<(usize, u64)> = Vec::new();
        let mut norm_sq: u128 = 0;
        let mut j: usize = 0;
        proof {
            assert(entries@ =~= entries_spec(self@, tv, 0));
        }
        while j < self.terms.len()
            invariant
                j <= self@.terms.len(),
                self.wf(),
                tv == toks.deep_view(),
                tv.len() == toks@.len(),
                total == tv.len(),
                counts@.len() == self@.terms.len(),
                forall|k: int| 0 <= k < counts@.len() ==> counts@[k] == count_at(
                    self@.terms,
                    tv,
                    k,
                ),
                forall|k: int| 0 <= k < counts@.len() ==> counts@[k] <= total,
                entries@ == entries_spec(self@, tv, j as int),
                norm_sq as int == sum_sq(entries@),
                (norm_sq as int) <= (j as int) * (crate::vector::IDF_SQ_MAX as int),
                forall|k: int| 0 <= k < entries@.len() ==> 0 < (#[trigger] entries@[k]).1
                    <= IDF_MAX,
                forall|k: int| 0 <= k < entries@.len() ==> (#[trigger] entries@[k]).0 < j,
                forall|k: int| 0 <= k && k + 1 < entries@.len() ==> (#[trigger] entries@[k]).0
                    < entries@[k + 1].0,
            decreases self@.terms.len() - j,
        {
            let c = counts[j];
            if c > 0 {
                let w = weight_fixed(c, total as u64, self.dfs[j], self.n_docs);
                if w > 0 {
                    proof {
                        lemma_sum_sq_push(entries@, (j, w));
                        assert((w as int) * (w as int) <= crate::vector::IDF_SQ_MAX as int)
                            by (nonlinear_arith)
                            requires w <= 5198674u64;
                        assert((j as int) * (crate::vector::IDF_SQ_MAX as int)
                            + crate::vector::IDF_SQ_MAX as int == (j as int + 1) * (
                        crate::vector::IDF_SQ_MAX as int)) by (nonlinear_arith);
                        assert((j as int + 1) * (crate::vector::IDF_SQ_MAX as int) <= u128::MAX
                            as int) by (nonlinear_arith)
                            requires j as int + 1 <= 0x1_0000_0000_0000_0000;
                    }
                    let ghost pre_e = entries@;
                    entries.push((j, w));
                    proof {
                        assert(entries@ == pre_e.push((j, w)));
                        lemma_sorted_push(pre_e, (j, w));
                    }
                    norm_sq = norm_sq + (w as u128) * (w as u128);
                }
            }
            j = j + 1;
        }
        let r = DocumentVector { entries, norm_sq };
        proof {
            assert(r@.entries =~= vector_entries(self@, text@));
        }
        r
    }
}

/// Prefixes compose: what is a prefix of a prefix is a prefix of the whole.
proof fn lemma_prefix_transitive(a: Seq<Seq<u8>>, b: Seq<Seq<u8>>, c: Seq<Seq<u8>>)
    requires
        a.is_prefix_of(b),
        b.is_prefix_of(c),
    ensures
        a.is_prefix_of(c),
{
    assert(a =~= c.subrange(0, a.len() as int));
}

/// Learning one token never renumbers an existing term.
proof fn lemma_learn_tok_monotonic(terms: Seq<Seq<u8>>, dfs: Seq<u64>, t: Seq<u8>)
    ensures
        terms.is_prefix_of(learn_tok(terms, dfs, t).0),
        learn_tok(terms, dfs, t).0.len() == learn_tok(terms, dfs, t).1.len() || terms.len()
            != dfs.len(),
{
    lemma_term_index_range(terms, t);
    if term_index(terms, t) < terms.len() {
        assert(terms =~= terms.subrange(0, terms.len() as int));
    } else {
        assert(terms =~= terms.push(t).subrange(0, terms.len() as int));
    }
}

/// Learning one document never renumbers an existing term.
proof fn lemma_learn_doc_monotonic(terms: Seq<Seq<u8>>, dfs: Seq<u64>, toks: Seq<Seq<u8>>, p: int)
    ensures
        terms.is_prefix_of(learn_doc(terms, dfs, toks, p).0),
    decreases p,
{
    if p <= 0 {
        assert(terms =~= terms.subrange(0, terms.len() as int));
    } else {
        lemma_learn_doc_monotonic(terms, dfs, toks, p - 1);
        let prev = learn_doc(terms, dfs, toks, p - 1);
        if is_first(toks, p - 1) {
            lemma_learn_tok_monotonic(prev.0, prev.1, toks[p - 1]);
            lemma_prefix_transitive(terms, prev.0, learn_doc(terms, dfs, toks, p).0);
        }
    }
}

/// Monotonic vocabulary: however much text is learned, on top of whatever
/// was already learned, every previously assigned term index keeps naming
/// the same term.
pub proof fn lemma_vocabulary_monotonic(v: VocabView, docs: Seq<Seq<char>>, c: int)
    ensures
        v.terms.is_prefix_of(learn_corpus(v, docs, c).terms),
        forall|i: int| 0 <= i < v.terms.len() ==> learn_corpus(v, docs, c).terms[i]
            == v.terms[i],
    decreases c,
{
    if c <= 0 {
        assert(v.terms =~= v.terms.subrange(0, v.terms.len() as int));
    } else {
        lemma_vocabulary_monotonic(v, docs, c - 1);
        let prev = learn_corpus(v, docs, c - 1);
        let toks = doc_tokens(prev, vstd::utf8::encode_utf8(docs[c - 1]));
        lemma_learn_doc_monotonic(prev.terms, prev.dfs, toks, toks.len() as int);
        lemma_prefix_transitive(v.terms, prev.terms, learn_corpus(v, docs, c).terms);
    }
    let w = learn_corpus(v, docs, c).terms;
    assert forall|i: int| 0 <= i < v.terms.len() implies w[i] == v.terms[i] by {
        assert(v.terms =~= w.subrange(0, v.terms.len() as int));
        assert(w.subrange(0, v.terms.len() as int)[i] == w[i]);
    };
}

/// Idempotence: vectorizing the same text twice against an unchanged
/// vocabulary yields identical vectors.
pub proof fn lemma_vectorize_idempotent(
    v: VocabView,
    text: Seq<char>,
    a: crate::vector::DocView,
    b: crate::vector::DocView,
)
    requires
        crate::vector::dv_wf(a),
        crate::vector::dv_wf(b),
        a.entries == vector_entries(v, text),
        b.entries == vector_entries(v, text),
    ensures
        a.entries == b.entries,
        a.norm_sq == b.norm_sq,
{
    assert(a.norm_sq as int == b.norm_sq as int);
}

} // verus!
