//! The command matcher: an indexed catalog of commands, ranked retrieval,
//! and incremental re-indexing driven by change events.
//!
//! Re-indexing is copy-on-build: a full load composes the new vocabulary
//! and entry table off to the side and swaps them in at the end, so a
//! failed load leaves the previous index untouched, and any snapshot taken
//! earlier keeps describing exactly one generation.
use vstd::prelude::*;
use vstd::string::StringSliceAdditionalSpecFns;
use crate::errors::McliError;
use crate::vector::{DocView, DocumentVector, dv_wf, sum_sq, sim_spec, similarity};
use crate::vectorizer::{TfIdfVectorizer, VocabView, learn_corpus, vector_entries, sat_inc};

verus! {

/// One command offered to the catalog: identifier, match text, and what to
/// run on a hit.
#[derive(Debug)]
pub struct CatalogInput {
    /// The stable key of the entry, e.g. the command name.
    pub id: String,
    /// The text the entry is matched by.
    pub description: String,
    /// The executable to start on a hit.
    pub executable: String,
    /// Argument templates, in order.
    pub args: Vec<String>,
}

/// The mathematical content of a `CatalogInput`.
pub struct InputView {
    pub id: Seq<char>,
    pub description: Seq<char>,
    pub executable: Seq<char>,
    pub args: Seq<Seq<char>>,
}

impl View for CatalogInput {
    type V = InputView;

    open spec fn view(&self) -> InputView {
        InputView {
            id: self.id@,
            description: self.description@,
            executable: self.executable@,
            args: self.args.deep_view(),
        }
    }
}

/// An indexed command: the input plus its current document vector.
#[derive(Debug)]
pub struct CatalogEntry {
    /// The stable key of the entry.
    pub id: String,
    /// The text the entry is matched by.
    pub description: String,
    /// The executable to start on a hit.
    pub executable: String,
    /// Argument templates, in order.
    pub args: Vec<String>,
    /// The TF-IDF vector of the description.
    pub vector: DocumentVector,
}

/// The mathematical content of a `CatalogEntry`.
pub struct EntryView {
    pub id: Seq<char>,
    pub description: Seq<char>,
    pub executable: Seq<char>,
    pub args: Seq<Seq<char>>,
    pub vector: DocView,
}

impl View for CatalogEntry {
    type V = EntryView;

    open spec fn view(&self) -> EntryView {
        EntryView {
            id: self.id@,
            description: self.description@,
            executable: self.executable@,
            args: self.args.deep_view(),
            vector: self.vector@,
        }
    }
}

/// One ranked hit of a query.
#[derive(Debug, PartialEq, Eq)]
pub struct MatchResult {
    /// The identifier of the matched catalog entry.
    pub id: String,
    /// Cosine similarity in fixed point: `fixed::SCALE` is 1.0.
    pub score: u64,
    /// Position in the ranking, starting at 1.
    pub rank: usize,
}

/// The mathematical content of a `MatchResult`.
pub struct MatchView {
    pub id: Seq<char>,
    pub score: u64,
    pub rank: usize,
}

impl View for MatchResult {
    type V = MatchView;

    open spec fn view(&self) -> MatchView {
        MatchView { id: self.id@, score: self.score, rank: self.rank }
    }
}

/// Strict lexical order on byte sequences.
pub open spec fn lex_lt(a: Seq<u8>, b: Seq<u8>) -> bool
    decreases a.len() + b.len(),
{
    if b.len() == 0 {
        false
    } else if a.len() == 0 {
        true
    } else if a[0] < b[0] {
        true
    } else if a[0] > b[0] {
        false
    } else {
        lex_lt(a.drop_first(), b.drop_first())
    }
}

/// The order used on identifiers: lexical order of their UTF-8 bytes.
pub open spec fn id_lt(a: Seq<char>, b: Seq<char>) -> bool {
    lex_lt(vstd::utf8::encode_utf8(a), vstd::utf8::encode_utf8(b))
}

/// Byte equality of identifiers.
pub open spec fn id_beq(a: Seq<char>, b: Seq<char>) -> bool {
    vstd::utf8::encode_utf8(a) == vstd::utf8::encode_utf8(b)
}

/// Lexical order is total: byte sequences that order neither way are equal.
pub proof fn lemma_lex_total(a: Seq<u8>, b: Seq<u8>)
    requires
        !lex_lt(a, b),
        !lex_lt(b, a),
    ensures
        a == b,
    decreases a.len() + b.len(),
{
    if a.len() == 0 && b.len() == 0 {
        assert(a =~= b);
    } else if a.len() == 0 || b.len() == 0 {
    } else {
        lemma_lex_total(a.drop_first(), b.drop_first());
        assert(a =~= seq![a[0]] + a.drop_first());
        assert(b =~= seq![b[0]] + b.drop_first());
    }
}

/// Whether any identifier of `ids` equals `id`.
pub open spec fn ids_contain(ids: Seq<Seq<char>>, id: Seq<char>) -> bool {
    exists|k: int| 0 <= k < ids.len() && ids[k] == id
}

/// `es` without the entries whose identifier occurs in `ids`.
pub open spec fn remove_spec(es: Seq<EntryView>, ids: Seq<Seq<char>>) -> Seq<EntryView>
    decreases es.len(),
{
    if es.len() == 0 {
        Seq::empty()
    } else {
        remove_spec(es.drop_last(), ids) + (if ids_contain(ids, es.last().id) {
            Seq::<EntryView>::empty()
        } else {
            seq![es.last()]
        })
    }
}

/// Insert-or-replace into an id-ordered entry table: an entry with the same
/// identifier is replaced in place, otherwise the new entry is inserted at
/// its ordered position.
pub open spec fn upsert_spec(es: Seq<EntryView>, e: EntryView) -> Seq<EntryView>
    decreases es.len(),
{
    if es.len() == 0 {
        seq![e]
    } else if id_lt(es[0].id, e.id) {
        seq![es[0]] + upsert_spec(es.drop_first(), e)
    } else if id_beq(es[0].id, e.id) {
        seq![e] + es.drop_first()
    } else {
        seq![e] + es
    }
}

/// The document view a vocabulary assigns to a text.
pub open spec fn doc_view_of(v: VocabView, text: Seq<char>) -> DocView {
    DocView {
        entries: vector_entries(v, text),
        norm_sq: sum_sq(vector_entries(v, text)) as u128,
    }
}

/// The indexed entry built from one input under vocabulary `v`.
pub open spec fn entry_of(v: VocabView, inp: InputView) -> EntryView {
    EntryView {
        id: inp.id,
        description: inp.description,
        executable: inp.executable,
        args: inp.args,
        vector: doc_view_of(v, inp.description),
    }
}

/// The first `c` inputs folded into an entry table by `upsert_spec`.
pub open spec fn build_entries(
    v: VocabView,
    base: Seq<EntryView>,
    inputs: Seq<InputView>,
    c: int,
) -> Seq<EntryView>
    decreases c,
{
    if c <= 0 {
        base
    } else {
        upsert_spec(build_entries(v, base, inputs, c - 1), entry_of(v, inputs[c - 1]))
    }
}

/// The description texts of a sequence of inputs.
pub open spec fn descriptions(inputs: Seq<InputView>) -> Seq<Seq<char>> {
    inputs.map(|i: int, x: InputView| x.description)
}

/// Whether some input lacks an identifier.
pub open spec fn has_empty_id(inputs: Seq<InputView>) -> bool {
    exists|k: int| 0 <= k < inputs.len() && inputs[k].id.len() == 0
}

/// The mathematical content of a `CommandMatcher`.
pub struct MatcherView {
    /// The vocabulary and document statistics of the index.
    pub vocab: VocabView,
    /// The entry table, strictly ordered by identifier bytes.
    pub entries: Seq<EntryView>,
    /// The index generation, bumped by every re-index.
    pub generation: u64,
}

/// Strictly ordered by identifier bytes.
pub open spec fn es_sorted(es: Seq<EntryView>) -> bool {
    forall|k: int| 0 <= k && k + 1 < es.len() ==> id_lt(#[trigger] es[k].id, es[k + 1].id)
}

/// All vectors of the table are well-formed.
pub open spec fn es_wf(es: Seq<EntryView>) -> bool {
    forall|k: int| 0 <= k < es.len() ==> dv_wf((#[trigger] es[k]).vector)
}

/// Scores below `min` are dropped; the rest keep the entry order.
pub open spec fn scored_spec(es: Seq<EntryView>, q: DocView, min: u64) -> Seq<(Seq<char>, u64)>
    decreases es.len(),
{
    if es.len() == 0 {
        Seq::empty()
    } else {
        scored_spec(es.drop_last(), q, min) + (if sim_spec(es.last().vector, q) >= min {
            seq![(es.last().id, sim_spec(es.last().vector, q) as u64)]
        } else {
            Seq::<(Seq<char>, u64)>::empty()
        })
    }
}

/// Where a stable descending insertion places `x`: after every element with
/// an equal or higher score.
pub open spec fn insert_pos(s: Seq<(Seq<char>, u64)>, x: (Seq<char>, u64)) -> int
    decreases s.len(),
{
    if s.len() == 0 {
        0
    } else if s.last().1 < x.1 {
        insert_pos(s.drop_last(), x)
    } else {
        s.len() as int
    }
}

/// One stable descending insertion.
pub open spec fn insert_desc(s: Seq<(Seq<char>, u64)>, x: (Seq<char>, u64)) -> Seq<
    (Seq<char>, u64),
> {
    s.take(insert_pos(s, x)) + seq![x] + s.skip(insert_pos(s, x))
}

/// Stable insertion sort, descending by score: ties keep their old order.
pub open spec fn sort_desc(s: Seq<(Seq<char>, u64)>) -> Seq<(Seq<char>, u64)>
    decreases s.len(),
{
    if s.len() == 0 {
        Seq::empty()
    } else {
        insert_desc(sort_desc(s.drop_last()), s.last())
    }
}

/// Ranks attached to an ordered score list, starting at 1.
pub open spec fn rank_spec(s: Seq<(Seq<char>, u64)>) -> Seq<MatchView> {
    Seq::new(s.len(), |i: int| MatchView { id: s[i].0, score: s[i].1, rank: (i + 1) as usize })
}

/// What a query returns: score every entry against the query vector, keep
/// scores at or above `min_score`, sort descending by score with ties in
/// identifier order, truncate to `top_k`, and attach ranks.
pub open spec fn query_spec(m: MatcherView, text: Seq<char>, top_k: int, min_score: u64) -> Seq<
    MatchView,
> {
    let q = doc_view_of(m.vocab, text);
    let sorted = sort_desc(scored_spec(m.entries, q, min_score));
    let cut = if top_k < sorted.len() {
        sorted.take(top_k)
    } else {
        sorted
    };
    rank_spec(cut)
}

/// The view of a result vector.
pub open spec fn results_view(r: Seq<MatchResult>) -> Seq<MatchView> {
    Seq::new(r.len(), |i: int| r[i]@)
}

/// Whether `a` comes strictly before `b` by identifier bytes.
fn str_lt(a: &str, b: &str) -> (r: bool)
    ensures
        r == lex_lt(a.spec_bytes(), b.spec_bytes()),
{
    let ab = a.as_bytes();
    let bb = b.as_bytes();
    let ghost av = a.spec_bytes();
    let ghost bv = b.spec_bytes();
    let mut i: usize = 0;
    proof {
        assert(av.skip(0) =~= av);
        assert(bv.skip(0) =~= bv);
    }
    while i < ab.len() && i < bb.len()
        invariant
            i <= av.len(),
            i <= bv.len(),
            ab@ == av,
            bb@ == bv,
            av == a.spec_bytes(),
            bv == b.spec_bytes(),
            lex_lt(av, bv) == lex_lt(av.skip(i as int), bv.skip(i as int)),
        decreases av.len() - i,
    {
        proof {
            assert(av.skip(i as int)[0] == av[i as int]);
            assert(bv.skip(i as int)[0] == bv[i as int]);
            assert(av.skip(i as int).drop_first() =~= av.skip(i as int + 1));
            assert(bv.skip(i as int).drop_first() =~= bv.skip(i as int + 1));
        }
        let ca = ab[i];
        let cb = bb[i];
        if ca < cb {
            proof {
                assert(av.skip(i as int).len() > 0);
                assert(bv.skip(i as int).len() > 0);
                assert(lex_lt(av.skip(i as int), bv.skip(i as int)));
            }
            return true;
        }
        if ca > cb {
            proof {
                assert(av.skip(i as int).len() > 0);
                assert(bv.skip(i as int).len() > 0);
                assert(!lex_lt(av.skip(i as int), bv.skip(i as int)));
            }
            return false;
        }
        i = i + 1;
    }
    proof {
        if i >= av.len() {
            assert(av.skip(i as int) =~= Seq::<u8>::empty());
        }
        if i >= bv.len() {
            assert(bv.skip(i as int) =~= Seq::<u8>::empty());
        }
    }
    i >= ab.len() && i < bb.len()
}

/// Whether `a` and `b` hold the same bytes.
fn str_beq(a: &str, b: &str) -> (r: bool)
    ensures
        r == (a.spec_bytes() == b.spec_bytes()),
{
    let ab = a.as_bytes();
    let bb = b.as_bytes();
    if ab.len() != bb.len() {
        assert(a.spec_bytes() != b.spec_bytes());
        return false;
    }
    let mut i: usize = 0;
    while i < ab.len()
        invariant
            i <= ab@.len(),
            ab@ == a.spec_bytes(),
            bb@ == b.spec_bytes(),
            ab@.len() == bb@.len(),
            forall|k: int| 0 <= k < i ==> ab@[k] == bb@[k],
        decreases ab@.len() - i,
    {
        if ab[i] != bb[i] {
            assert(a.spec_bytes() != b.spec_bytes());
            return false;
        }
        i = i + 1;
    }
    proof {
        assert(a.spec_bytes() =~= b.spec_bytes());
    }
    true
}

/// The matcher: vocabulary, entry table and generation counter.
#[derive(Debug)]
pub struct CommandMatcher {
    vectorizer: TfIdfVectorizer,
    entries: Vec<CatalogEntry>,
    generation: u64,
}

impl View for CommandMatcher {
    type V = MatcherView;

    closed spec fn view(&self) -> MatcherView {
        MatcherView {
            vocab: self.vectorizer@,
            entries: es_view(self.entries@),
            generation: self.generation,
        }
    }
}

impl CommandMatcher {
    /// Internal soundness: a well-formed vectorizer, well-formed vectors,
    /// and a table strictly ordered by identifier.
    pub open spec fn wf(&self) -> bool {
        &&& self@.vocab.terms.len() == self@.vocab.dfs.len()
        &&& es_wf(self@.entries)
        &&& es_sorted(self@.entries)
    }

    /// An empty matcher at generation zero.
    pub fn new() -> (r: CommandMatcher)
        ensures
            r.wf(),
            r@.entries.len() == 0,
            r@.generation == 0,
            r@.vocab.terms.len() == 0,
            r@.vocab.n_docs == 0,
    {
        let r = CommandMatcher {
            vectorizer: TfIdfVectorizer::new(),
            entries: Vec::new(),
            generation: 0,
        };
        proof {
            assert(r@.entries =~= Seq::<EntryView>::empty());
        }
        r
    }

    /// An empty matcher whose vectorizer will ignore the given stopword
    /// tokens.
    pub fn with_stopwords(stopwords: Vec<Vec<u8>>) -> (r: CommandMatcher)
        ensures
            r.wf(),
            r@.entries.len() == 0,
            r@.generation == 0,
            r@.vocab.terms.len() == 0,
            r@.vocab.stopwords == stopwords.deep_view(),
    {
        let r = CommandMatcher {
            vectorizer: TfIdfVectorizer::with_stopwords(stopwords),
            entries: Vec::new(),
            generation: 0,
        };
        proof {
            assert(r@.entries =~= Seq::<EntryView>::empty());
        }
        r
    }

    /// The current index generation, for staleness diagnostics.
    pub fn generation(&self) -> (r: u64)
        ensures
            r == self@.generation,
    {
        self.generation
    }

    /// How many entries the catalog holds.
    pub fn len(&self) -> (r: usize)
        ensures
            r == self@.entries.len(),
    {
        self.entries.len()
    }
}

/// The view of a whole entry table.
pub open spec fn es_view(v: Seq<CatalogEntry>) -> Seq<EntryView> {
    Seq::new(v.len(), |i: int| v[i]@)
}

/// What `upsert_spec` does, located at the insertion point `k`: replace in
/// place on an identifier hit, else insert at `k`.
proof fn lemma_upsert_pos(es: Seq<EntryView>, e: EntryView, k: int)
    requires
        0 <= k <= es.len(),
        forall|i: int| 0 <= i < k ==> id_lt((#[trigger] es[i]).id, e.id),
        k < es.len() ==> !id_lt(es[k].id, e.id),
    ensures
        k < es.len() && id_beq(es[k].id, e.id) ==> upsert_spec(es, e) == es.update(k, e),
        !(k < es.len() && id_beq(es[k].id, e.id)) ==> upsert_spec(es, e) == es.take(k)
            + seq![e] + es.skip(k),
    decreases es.len(),
{
    if es.len() == 0 {
        assert(upsert_spec(es, e) =~= es.take(0) + seq![e] + es.skip(0));
    } else if k == 0 {
        if id_beq(es[0].id, e.id) {
            assert(!id_lt(es[0].id, e.id));
            assert(upsert_spec(es, e) =~= es.update(0, e));
        } else {
            assert(upsert_spec(es, e) =~= es.take(0) + seq![e] + es.skip(0));
        }
    } else {
        assert(id_lt(es[0].id, e.id));
        let d = es.drop_first();
        assert(forall|i: int| 0 <= i < k - 1 ==> id_lt((#[trigger] d[i]).id, e.id)) by {
            assert(forall|i: int| 0 <= i < k - 1 ==> d[i] == es[i + 1]);
        };
        lemma_upsert_pos(d, e, k - 1);
        if k < es.len() && id_beq(es[k].id, e.id) {
            assert(d[k - 1] == es[k]);
            assert(upsert_spec(es, e) =~= seq![es[0]] + d.update(k - 1, e));
            assert(seq![es[0]] + d.update(k - 1, e) =~= es.update(k, e));
        } else {
            assert(upsert_spec(es, e) =~= seq![es[0]] + (d.take(k - 1) + seq![e] + d.skip(k - 1)));
            assert(seq![es[0]] + (d.take(k - 1) + seq![e] + d.skip(k - 1)) =~= es.take(k)
                + seq![e] + es.skip(k));
        }
    }
}

/// Replacing an entry by one with byte-equal identifier keeps the table
/// sorted and well-formed.
#[verifier::spinoff_prover]
proof fn lemma_update_keeps(es: Seq<EntryView>, e: EntryView, k: int)
    requires
        es_sorted(es),
        es_wf(es),
        dv_wf(e.vector),
        0 <= k < es.len(),
        id_beq(es[k].id, e.id),
    ensures
        es_sorted(es.update(k, e)),
        es_wf(es.update(k, e)),
{
    let out = es.update(k, e);
    assert forall|i: int| 0 <= i && i + 1 < out.len() implies id_lt(
        #[trigger] out[i].id,
        out[i + 1].id,
    ) by {
        if i + 1 < k || i > k {
            assert(out[i] == es[i] && out[i + 1] == es[i + 1]);
        } else if i + 1 == k {
            assert(out[i] == es[i] && out[i + 1] == e);
            assert(id_lt(es[i].id, es[k].id));
        } else {
            assert(out[i] == e && out[i + 1] == es[i + 1]);
            assert(id_lt(es[k].id, es[i + 1].id));
        }
    };
    assert forall|i: int| 0 <= i < out.len() implies dv_wf((#[trigger] out[i]).vector) by {
        if i != k {
            assert(out[i] == es[i]);
        }
    };
}

/// Inserting an entry at its ordered position keeps the table sorted and
/// well-formed.
#[verifier::rlimit(100)]
#[verifier::spinoff_prover]
proof fn lemma_insert_keeps(es: Seq<EntryView>, e: EntryView, k: int)
    requires
        es_sorted(es),
        es_wf(es),
        dv_wf(e.vector),
        0 <= k <= es.len(),
        forall|i: int| 0 <= i < k ==> id_lt((#[trigger] es[i]).id, e.id),
        k < es.len() ==> id_lt(e.id, es[k].id),
    ensures
        es_sorted(es.take(k) + seq![e] + es.skip(k)),
        es_wf(es.take(k) + seq![e] + es.skip(k)),
{
    let out = es.take(k) + seq![e] + es.skip(k);
    assert(out.len() == es.len() + 1);
    assert forall|i: int| 0 <= i && i + 1 < out.len() implies id_lt(
        #[trigger] out[i].id,
        out[i + 1].id,
    ) by {
        if i + 1 < k {
            assert(out[i] == es[i] && out[i + 1] == es[i + 1]);
        } else if i + 1 == k {
            assert(out[i] == es[i] && out[i + 1] == e);
        } else if i == k {
            assert(out[i] == e && out[i + 1] == es[i]);
        } else {
            assert(out[i] == es[i - 1] && out[i + 1] == es[i]);
        }
    };
    assert forall|i: int| 0 <= i < out.len() implies dv_wf((#[trigger] out[i]).vector) by {
        if i < k {
            assert(out[i] == es[i]);
        } else if i > k {
            assert(out[i] == es[i - 1]);
        }
    };
}

/// Replace the entry with the same identifier, or insert at the ordered
/// position; the table stays sorted and its vectors stay well-formed.
#[verifier::rlimit(100)]
fn upsert_entry(entries: &mut Vec<CatalogEntry>, e: CatalogEntry)
    requires
        es_sorted(es_view(old(entries)@)),
        es_wf(es_view(old(entries)@)),
        dv_wf(e@.vector),
    ensures
        es_view(final(entries)@) == upsert_spec(es_view(old(entries)@), e@),
        es_sorted(es_view(final(entries)@)),
        es_wf(es_view(final(entries)@)),
{
    let ghost es = es_view(entries@);
    let ghost ev = e@;
    let n = entries.len();
    let mut k: usize = 0;
    while k < n && str_lt(entries[k].id.as_str(), e.id.as_str())
        invariant
            k <= n,
            n == entries@.len(),
            es == es_view(entries@),
            ev == e@,
            forall|i: int| 0 <= i < k ==> id_lt((#[trigger] es[i]).id, ev.id),
        decreases n - k,
    {
        proof {
            assert(es[k as int] == entries@[k as int]@);
        }
        k = k + 1;
    }
    proof {
        if k < n {
            assert(es[k as int] == entries@[k as int]@);
        }
        lemma_upsert_pos(es, ev, k as int);
    }
    let hit = if k < n {
        str_beq(entries[k].id.as_str(), e.id.as_str())
    } else {
        false
    };
    proof {
        if k < n {
            assert(es[k as int] == entries@[k as int]@);
            assert(hit == id_beq(es[k as int].id, ev.id));
        }
    }
    if hit {
        entries[k] = e;
        proof {
            assert(es_view(entries@) =~= es.update(k as int, ev));
            lemma_update_keeps(es, ev, k as int);
        }
    } else {
        proof {
            if (k as int) < es.len() {
                if !id_lt(ev.id, es[k as int].id) {
                    lemma_lex_total(
                        vstd::utf8::encode_utf8(es[k as int].id),
                        vstd::utf8::encode_utf8(ev.id),
                    );
                    assert(false);
                }
            }
            lemma_insert_keeps(es, ev, k as int);
        }
        entries.insert(k, e);
        proof {
            assert(es_view(entries@) =~= es.take(k as int) + seq![ev] + es.skip(k as int));
        }
    }
}

/// The views of a sequence of inputs.
pub open spec fn iv_view(v: Seq<CatalogInput>) -> Seq<InputView> {
    Seq::new(v.len(), |i: int| v[i]@)
}

/// The views of a scored list.
pub open spec fn pairs_view(v: Seq<(String, u64)>) -> Seq<(Seq<char>, u64)> {
    Seq::new(v.len(), |i: int| (v[i].0@, v[i].1))
}

/// An empty vocabulary carrying a stopword set.
pub open spec fn fresh_vocab(stopwords: Seq<Seq<u8>>) -> VocabView {
    VocabView { terms: Seq::empty(), dfs: Seq::empty(), n_docs: 0, stopwords }
}

/// What `load_catalog` builds: a fresh vocabulary learned from all the
/// descriptions in one pass, every entry vectorized under it, and the next
/// generation.
pub open spec fn load_spec(m: MatcherView, inputs: Seq<InputView>) -> MatcherView {
    let v = learn_corpus(fresh_vocab(m.vocab.stopwords), descriptions(inputs), inputs.len() as int);
    MatcherView {
        vocab: v,
        entries: build_entries(v, Seq::empty(), inputs, inputs.len() as int),
        generation: sat_inc(m.generation),
    }
}

/// What `apply_change` builds: the changed descriptions folded into the
/// existing vocabulary, removed entries dropped, changed entries
/// re-vectorized, untouched entries keeping their vectors.
pub open spec fn apply_spec(m: MatcherView, ups: Seq<InputView>, removed: Seq<Seq<char>>) -> MatcherView {
    let v = learn_corpus(m.vocab, descriptions(ups), ups.len() as int);
    MatcherView {
        vocab: v,
        entries: build_entries(v, remove_spec(m.entries, removed), ups, ups.len() as int),
        generation: sat_inc(m.generation),
    }
}

/// Lexical order is transitive.
pub proof fn lemma_lex_trans(a: Seq<u8>, b: Seq<u8>, c: Seq<u8>)
    requires
        lex_lt(a, b),
        lex_lt(b, c),
    ensures
        lex_lt(a, c),
    decreases a.len() + b.len() + c.len(),
{
    if b.len() == 0 || c.len() == 0 {
    } else if a.len() == 0 {
    } else {
        if a[0] == b[0] && b[0] == c[0] {
            lemma_lex_trans(a.drop_first(), b.drop_first(), c.drop_first());
        }
    }
}

/// A copy of a string, character for character.
fn clone_string(s: &String) -> (r: String)
    ensures
        r@ == s@,
{
    s.clone()
}

/// A copy of a vector of strings.
fn clone_string_vec(v: &Vec<String>) -> (r: Vec<String>)
    ensures
        r@ == v@,
        r.deep_view() == v.deep_view(),
{
    let mut r: Vec<String> = Vec::new();
    let mut i: usize = 0;
    while i < v.len()
        invariant
            i <= v@.len(),
            r@ =~= v@.take(i as int),
        decreases v@.len() - i,
    {
        r.push(v[i].clone());
        i = i + 1;
    }
    proof {
        assert(v@.take(v@.len() as int) =~= v@);
        assert(r.deep_view() =~~= v.deep_view());
    }
    r
}

/// Whether two strings hold the same characters.
fn string_eq(a: &String, b: &String) -> (r: bool)
    ensures
        r == (a@ == b@),
{
    a.eq(b)
}

/// Whether `id` occurs among `ids`.
fn id_in(ids: &Vec<String>, id: &String) -> (r: bool)
    ensures
        r == ids_contain(ids.deep_view(), id@),
{
    let mut i: usize = 0;
    while i < ids.len()
        invariant
            i <= ids@.len(),
            forall|k: int| 0 <= k < i ==> ids.deep_view()[k] != id@,
        decreases ids@.len() - i,
    {
        proof {
            assert(ids.deep_view()[i as int] == ids@[i as int]@);
        }
        if string_eq(&ids[i], id) {
            assert(ids.deep_view()[i as int] == id@);
            return true;
        }
        i = i + 1;
    }
    false
}

/// A copy of a document vector.
fn clone_vector(d: &DocumentVector) -> (r: DocumentVector)
    ensures
        r@ == d@,
{
    let mut entries: Vec<(usize, u64)> = Vec::new();
    let mut i: usize = 0;
    while i < d.entries.len()
        invariant
            i <= d.entries@.len(),
            entries@ =~= d.entries@.take(i as int),
        decreases d.entries@.len() - i,
    {
        entries.push(d.entries[i]);
        i = i + 1;
    }
    proof {
        assert(d.entries@.take(d.entries@.len() as int) =~= d.entries@);
    }
    DocumentVector { entries, norm_sq: d.norm_sq }
}

/// A copy of a catalog entry.
fn clone_entry(e: &CatalogEntry) -> (r: CatalogEntry)
    ensures
        r@ == e@,
{
    CatalogEntry {
        id: clone_string(&e.id),
        description: clone_string(&e.description),
        executable: clone_string(&e.executable),
        args: clone_string_vec(&e.args),
        vector: clone_vector(&e.vector),
    }
}

/// Appending an entry above every identifier of a sorted run keeps it
/// sorted.
proof fn lemma_es_sorted_push(s: Seq<EntryView>, e: EntryView)
    requires
        es_sorted(s),
        forall|k: int| 0 <= k < s.len() ==> id_lt((#[trigger] s[k]).id, e.id),
    ensures
        es_sorted(s.push(e)),
{
    assert forall|k: int| 0 <= k && k + 1 < s.push(e).len() implies id_lt(
        (#[trigger] s.push(e)[k]).id,
        s.push(e)[k + 1].id,
    ) by {
        assert(s.push(e)[k] == s[k]);
        if k + 1 < s.len() {
            assert(s.push(e)[k + 1] == s[k + 1]);
        } else {
            assert(s.push(e)[k + 1] == e);
        }
    };
}

impl CommandMatcher {
    /// Replace the whole catalog: build a fresh vocabulary from every
    /// description in one bulk pass, vectorize each entry under it, and
    /// swap the new index in. An input without an identifier is rejected
    /// with `InvalidInput` and the previous index is left untouched.
    pub fn load_catalog(&mut self, inputs: &Vec<CatalogInput>) -> (r: Result<(), McliError>)
        requires
            old(self).wf(),
        ensures
            final(self).wf(),
            r is Ok <==> !has_empty_id(iv_view(inputs@)),
            r is Ok ==> final(self)@ == load_spec(old(self)@, iv_view(inputs@)),
            r is Err ==> final(self)@ == old(self)@ && r == Err::<(), McliError>(
                McliError::InvalidInput,
            ),
    {
        let ghost m0 = self@;
        let ghost iv = iv_view(inputs@);
        let mut i: usize = 0;
        while i < inputs.len()
            invariant
                i <= inputs@.len(),
                iv == iv_view(inputs@),
                *self == *old(self),
                self.wf(),
                self@ == m0,
                forall|k: int| 0 <= k < i ==> (#[trigger] iv[k]).id.len() != 0,
            decreases inputs@.len() - i,
        {
            proof {
                assert(iv[i as int] == inputs@[i as int]@);
            }
            if inputs[i].id.as_str().is_empty() {
                return Err(McliError::InvalidInput);
            }
            i = i + 1;
        }
        assert(!has_empty_id(iv));
        let stops = self.vectorizer.stopwords_copy();
        let mut vz = TfIdfVectorizer::with_stopwords(stops);
        proof {
            assert(vz@ == fresh_vocab(m0.vocab.stopwords));
        }
        let mut descs: Vec<String> = Vec::new();
        let mut i: usize = 0;
        while i < inputs.len()
            invariant
                i <= inputs@.len(),
                iv == iv_view(inputs@),
                descs@.len() == i,
                forall|k: int| 0 <= k < i ==> descs@[k]@ == (#[trigger] iv[k]).description,
            decreases inputs@.len() - i,
        {
            proof {
                assert(iv[i as int] == inputs@[i as int]@);
            }
            descs.push(clone_string(&inputs[i].description));
            i = i + 1;
        }
        proof {
            assert(descs.deep_view() =~~= descriptions(iv));
        }
        vz.learn_vocabulary(&descs);
        let ghost lv = vz@;
        proof {
            assert(lv == learn_corpus(fresh_vocab(m0.vocab.stopwords), descriptions(iv),
                iv.len() as int));
        }
        let mut table: Vec<CatalogEntry> = Vec::new();
        let mut i: usize = 0;
        proof {
            assert(es_view(table@) =~= Seq::<EntryView>::empty());
        }
        while i < inputs.len()
            invariant
                i <= inputs@.len(),
                iv == iv_view(inputs@),
                vz@ == lv,
                vz.wf(),
                lv == learn_corpus(fresh_vocab(m0.vocab.stopwords), descriptions(iv),
                    iv.len() as int),
                *self == *old(self),
                self@ == m0,
                es_view(table@) == build_entries(lv, Seq::empty(), iv, i as int),
                es_sorted(es_view(table@)),
                es_wf(es_view(table@)),
            decreases inputs@.len() - i,
        {
            proof {
                assert(iv[i as int] == inputs@[i as int]@);
            }
            let vec = vz.vectorize(inputs[i].description.as_str());
            proof {
                assert(vec@.norm_sq as int == sum_sq(vector_entries(lv, iv[i as int].description)));
                assert(vec@ == doc_view_of(lv, iv[i as int].description));
            }
            let entry = CatalogEntry {
                id: clone_string(&inputs[i].id),
                description: clone_string(&inputs[i].description),
                executable: clone_string(&inputs[i].executable),
                args: clone_string_vec(&inputs[i].args),
                vector: vec,
            };
            proof {
                assert(entry@ == entry_of(lv, iv[i as int]));
            }
            upsert_entry(&mut table, entry);
            i = i + 1;
        }
        self.vectorizer = vz;
        self.entries = table;
        self.generation = if self.generation < u64::MAX {
            self.generation + 1
        } else {
            self.generation
        };
        proof {
            assert(self@ == load_spec(m0, iv));
        }
        Ok(())
    }

    /// Apply one coalesced change event: drop the removed identifiers, fold
    /// the added or modified descriptions into the vocabulary (so document
    /// frequencies keep counting), and re-vectorize exactly those entries.
    /// Entries untouched by the event keep their existing vectors. An input
    /// without an identifier is rejected with `InvalidInput` and the index
    /// is left untouched.
    pub fn apply_change(&mut self, upserts: &Vec<CatalogInput>, removed: &Vec<String>) -> (r:
        Result<(), McliError>)
        requires
            old(self).wf(),
        ensures
            final(self).wf(),
            r is Ok <==> !has_empty_id(iv_view(upserts@)),
            r is Ok ==> final(self)@ == apply_spec(old(self)@, iv_view(upserts@),
                removed.deep_view()),
            r is Err ==> final(self)@ == old(self)@ && r == Err::<(), McliError>(
                McliError::InvalidInput,
            ),
    {
        let ghost m0 = self@;
        let ghost iv = iv_view(upserts@);
        let ghost rdv = removed.deep_view();
        let mut i: usize = 0;
        while i < upserts.len()
            invariant
                i <= upserts@.len(),
                iv == iv_view(upserts@),
                *self == *old(self),
                self.wf(),
                self@ == m0,
                forall|k: int| 0 <= k < i ==> (#[trigger] iv[k]).id.len() != 0,
            decreases upserts@.len() - i,
        {
            proof {
                assert(iv[i as int] == upserts@[i as int]@);
            }
            if upserts[i].id.as_str().is_empty() {
                return Err(McliError::InvalidInput);
            }
            i = i + 1;
        }
        assert(!has_empty_id(iv));
        let mut descs: Vec<String> = Vec::new();
        let mut i: usize = 0;
        while i < upserts.len()
            invariant
                i <= upserts@.len(),
                iv == iv_view(upserts@),
                descs@.len() == i,
                forall|k: int| 0 <= k < i ==> descs@[k]@ == (#[trigger] iv[k]).description,
            decreases upserts@.len() - i,
        {
            proof {
                assert(iv[i as int] == upserts@[i as int]@);
            }
            descs.push(clone_string(&upserts[i].description));
            i = i + 1;
        }
        proof {
            assert(descs.deep_view() =~~= descriptions(iv));
        }
        self.vectorizer.learn_vocabulary(&descs);
        let ghost lv = self.vectorizer@;
        proof {
            assert(lv == learn_corpus(m0.vocab, descriptions(iv), iv.len() as int));
        }
        let ghost es0 = m0.entries;
        let mut ret: Vec<CatalogEntry> = Vec::new();
        let mut i: usize = 0;
        proof {
            assert(es_view(ret@) =~= Seq::<EntryView>::empty());
            assert(es0.take(0) =~= Seq::<EntryView>::empty());
        }
        while i < self.entries.len()
            invariant
                i <= self.entries@.len(),
                es_view(self.entries@) == es0,
                rdv == removed.deep_view(),
                self.vectorizer@ == lv,
                self.vectorizer.wf(),
                self@.generation == m0.generation,
                es_sorted(es0),
                es_wf(es0),
                es_view(ret@) == remove_spec(es0.take(i as int), rdv),
                es_sorted(es_view(ret@)),
                es_wf(es_view(ret@)),
                forall|k: int| #![auto] 0 <= k < es_view(ret@).len() && i < es0.len()
                    ==> id_lt(es_view(ret@)[k].id, es0[i as int].id),
            decreases self.entries@.len() - i,
        {
            let ghost rv = es_view(ret@);
            proof {
                assert(es_view(self.entries@)[i as int] == self.entries@[i as int]@);
                assert(es0.take(i as int + 1).drop_last() =~= es0.take(i as int));
                assert(es0.take(i as int + 1).last() == es0[i as int]);
                assert(remove_spec(es0.take(i as int + 1), rdv) == remove_spec(
                    es0.take(i as int),
                    rdv,
                ) + (if ids_contain(rdv, es0[i as int].id) {
                    Seq::<EntryView>::empty()
                } else {
                    seq![es0[i as int]]
                }));
            }
            if !id_in(removed, &self.entries[i].id) {
                let e = clone_entry(&self.entries[i]);
                proof {
                    assert(e@ == es0[i as int]);
                    lemma_es_sorted_push(rv, es0[i as int]);
                }
                ret.push(e);
                proof {
                    assert(es_view(ret@) =~= rv.push(es0[i as int]));
                    assert(rv + seq![es0[i as int]] =~= es_view(ret@));
                    assert forall|k: int| 0 <= k < es_view(ret@).len() implies dv_wf(
                        (#[trigger] es_view(ret@)[k]).vector,
                    ) by {
                        if k < rv.len() {
                            assert(es_view(ret@)[k] == rv[k]);
                        } else {
                            assert(es_view(ret@)[k] == es0[i as int]);
                        }
                    };
                }
            } else {
                proof {
                    assert(es_view(ret@) + Seq::<EntryView>::empty() =~= es_view(ret@));
                }
            }
            proof {
                if i as int + 1 < es0.len() {
                    assert(id_lt(es0[i as int].id, es0[i as int + 1].id));
                    assert forall|k: int| #![auto] 0 <= k < es_view(ret@).len() implies id_lt(
                        es_view(ret@)[k].id,
                        es0[i as int + 1].id,
                    ) by {
                        if k < rv.len() {
                            lemma_lex_trans(
                                vstd::utf8::encode_utf8(rv[k].id),
                                vstd::utf8::encode_utf8(es0[i as int].id),
                                vstd::utf8::encode_utf8(es0[i as int + 1].id),
                            );
                        }
                    };
                }
            }
            i = i + 1;
        }
        proof {
            assert(es0.take(es0.len() as int) =~= es0);
        }
        self.entries = ret;
        let ghost base = remove_spec(es0, rdv);
        let mut i: usize = 0;
        while i < upserts.len()
            invariant
                i <= upserts@.len(),
                iv == iv_view(upserts@),
                self.vectorizer@ == lv,
                self.vectorizer.wf(),
                self@.generation == m0.generation,
                base == remove_spec(es0, rdv),
                lv == learn_corpus(m0.vocab, descriptions(iv), iv.len() as int),
                es_view(self.entries@) == build_entries(lv, base, iv, i as int),
                es_sorted(es_view(self.entries@)),
                es_wf(es_view(self.entries@)),
            decreases upserts@.len() - i,
        {
            proof {
                assert(iv[i as int] == upserts@[i as int]@);
            }
            let vec = self.vectorizer.vectorize(upserts[i].description.as_str());
            proof {
                assert(vec@ == doc_view_of(lv, iv[i as int].description));
            }
            let entry = CatalogEntry {
                id: clone_string(&upserts[i].id),
                description: clone_string(&upserts[i].description),
                executable: clone_string(&upserts[i].executable),
                args: clone_string_vec(&upserts[i].args),
                vector: vec,
            };
            proof {
                assert(entry@ == entry_of(lv, iv[i as int]));
            }
            upsert_entry(&mut self.entries, entry);
            i = i + 1;
        }
        self.generation = if self.generation < u64::MAX {
            self.generation + 1
        } else {
            self.generation
        };
        proof {
            assert(self@ == apply_spec(m0, iv, rdv));
        }
        Ok(())
    }
}

impl CommandMatcher {
    /// Rank the catalog against a free-text query: every entry is scored by
    /// cosine similarity to the query vector, scores below `min_score` are
    /// dropped, the rest are sorted descending by score with ties kept in
    /// identifier order, the list is cut to `top_k`, and ranks are attached
    /// starting at 1. An empty result is an ordinary outcome, never an
    /// error; on an empty catalog the result is always empty.
    pub fn query(&self, text: &str, top_k: usize, min_score: u64) -> (r: Vec<MatchResult>)
        requires
            self.wf(),
        ensures
            results_view(r@) == query_spec(self@, text@, top_k as int, min_score),
            r@.len() <= top_k,
    {
        let ghost m = self@;
        let qv = self.vectorizer.vectorize(text);
        proof {
            assert(qv@ == doc_view_of(m.vocab, text@));
        }
        let mut scored: Vec<(String, u64)> = Vec::new();
        let mut i: usize = 0;
        proof {
            assert(pairs_view(scored@) =~= Seq::<(Seq<char>, u64)>::empty());
            assert(m.entries.take(0) =~= Seq::<EntryView>::empty());
        }
        while i < self.entries.len()
            invariant
                i <= self.entries@.len(),
                self.wf(),
                m == self@,
                qv.wf(),
                qv@ == doc_view_of(m.vocab, text@),
                pairs_view(scored@) == scored_spec(m.entries.take(i as int), qv@, min_score),
            decreases self.entries@.len() - i,
        {
            let ghost pv = pairs_view(scored@);
            proof {
                assert(m.entries[i as int] == self.entries@[i as int]@);
                assert(m.entries.take(i as int + 1).drop_last() =~= m.entries.take(i as int));
                assert(m.entries.take(i as int + 1).last() == m.entries[i as int]);
                assert(dv_wf(m.entries[i as int].vector));
            }
            let sc = similarity(&self.entries[i].vector, &qv);
            if sc >= min_score {
                scored.push((clone_string(&self.entries[i].id), sc));
                proof {
                    assert(pairs_view(scored@) =~= pv + seq![
                        (m.entries[i as int].id, sim_spec(m.entries[i as int].vector, qv@) as u64),
                    ]);
                }
            } else {
                proof {
                    assert(pv + Seq::<(Seq<char>, u64)>::empty() =~= pv);
                }
            }
            i = i + 1;
        }
        proof {
            assert(m.entries.take(m.entries.len() as int) =~= m.entries);
        }
        let ghost sv = pairs_view(scored@);
        let mut out: Vec<(String, u64)> = Vec::new();
        let mut i: usize = 0;
        proof {
            assert(pairs_view(out@) =~= Seq::<(Seq<char>, u64)>::empty());
            assert(sv.take(0) =~= Seq::<(Seq<char>, u64)>::empty());
        }
        while i < scored.len()
            invariant
                i <= scored@.len(),
                sv == pairs_view(scored@),
                pairs_view(out@) == sort_desc(sv.take(i as int)),
            decreases scored@.len() - i,
        {
            let ghost ov = pairs_view(out@);
            let x = (clone_string(&scored[i].0), scored[i].1);
            let ghost xv = (x.0@, x.1);
            proof {
                assert(xv == sv[i as int]);
                assert(sv.take(i as int + 1).drop_last() =~= sv.take(i as int));
                assert(sv.take(i as int + 1).last() == sv[i as int]);
            }
            let mut p: usize = out.len();
            proof {
                assert(ov.take(p as int) =~= ov);
            }
            while p > 0 && out[p - 1].1 < x.1
                invariant
                    p <= out@.len(),
                    ov == pairs_view(out@),
                    xv.1 == x.1,
                    insert_pos(ov, xv) == insert_pos(ov.take(p as int), xv),
                decreases p,
            {
                proof {
                    assert(ov[p - 1].1 == out@[p - 1].1);
                    assert(ov.take(p as int).last() == ov[p - 1]);
                    assert(ov.take(p as int).drop_last() =~= ov.take(p as int - 1));
                }
                p = p - 1;
            }
            proof {
                if p > 0 {
                    assert(ov[p - 1].1 == out@[p - 1].1);
                    assert(ov.take(p as int).last() == ov[p - 1]);
                    assert(insert_pos(ov.take(p as int), xv) == p);
                } else {
                    assert(ov.take(0).len() == 0);
                }
                assert(insert_pos(ov, xv) == p);
            }
            out.insert(p, x);
            proof {
                assert(pairs_view(out@) =~= ov.take(p as int) + seq![xv] + ov.skip(p as int));
                assert(pairs_view(out@) == insert_desc(ov, xv));
            }
            i = i + 1;
        }
        proof {
            assert(sv.take(sv.len() as int) =~= sv);
        }
        let ghost sorted = sort_desc(sv);
        if top_k < out.len() {
            out.truncate(top_k);
            proof {
                assert(pairs_view(out@) =~= sorted.take(top_k as int));
            }
        }
        let ghost cut = pairs_view(out@);
        let mut results: Vec<MatchResult> = Vec::new();
        let mut i: usize = 0;
        while i < out.len()
            invariant
                i <= out@.len(),
                cut == pairs_view(out@),
                cut.len() <= top_k || cut == sort_desc(sv),
                results@.len() == i,
                forall|k: int| 0 <= k < i ==> (#[trigger] results@[k])@ == (MatchView {
                    id: cut[k].0,
                    score: cut[k].1,
                    rank: (k + 1) as usize,
                }),
            decreases out@.len() - i,
        {
            proof {
                assert(cut[i as int] == (out@[i as int].0@, out@[i as int].1));
            }
            results.push(
                MatchResult { id: clone_string(&out[i].0), score: out[i].1, rank: i + 1 },
            );
            i = i + 1;
        }
        proof {
            assert(results_view(results@) =~= rank_spec(cut));
            assert(results_view(results@) == query_spec(m, text@, top_k as int, min_score));
        }
        results
    }
}

/// Descending by score.
pub open spec fn desc_sorted(s: Seq<(Seq<char>, u64)>) -> bool {
    forall|k: int| 0 <= k && k + 1 < s.len() ==> (#[trigger] s[k]).1 >= s[k + 1].1
}

/// Where the stable insertion lands: everything from the insertion point on
/// scores strictly less, everything before it scores at least as much.
proof fn lemma_insert_pos_props(s: Seq<(Seq<char>, u64)>, x: (Seq<char>, u64))
    requires
        desc_sorted(s),
    ensures
        0 <= insert_pos(s, x) <= s.len(),
        forall|k: int| insert_pos(s, x) <= k < s.len() ==> (#[trigger] s[k]).1 < x.1,
        insert_pos(s, x) > 0 ==> s[insert_pos(s, x) - 1].1 >= x.1,
    decreases s.len(),
{
    if s.len() == 0 {
    } else if s.last().1 < x.1 {
        let d = s.drop_last();
        assert(desc_sorted(d)) by {
            assert(forall|k: int| 0 <= k && k + 1 < d.len() ==> (#[trigger] d[k]) == s[k] && d[k
                + 1] == s[k + 1]);
        };
        lemma_insert_pos_props(d, x);
        assert(forall|k: int| insert_pos(s, x) <= k < s.len() - 1 ==> (#[trigger] s[k]).1
            == d[k].1);
    } else {
    }
}

/// A stable descending insertion into a descending list stays descending.
proof fn lemma_insert_desc_sorted(s: Seq<(Seq<char>, u64)>, x: (Seq<char>, u64))
    requires
        desc_sorted(s),
    ensures
        desc_sorted(insert_desc(s, x)),
{
    lemma_insert_pos_props(s, x);
    let p = insert_pos(s, x);
    let out = s.take(p) + seq![x] + s.skip(p);
    assert forall|k: int| 0 <= k && k + 1 < out.len() implies (#[trigger] out[k]).1 >= out[k
        + 1].1 by {
        if k + 1 < p {
            assert(out[k] == s[k] && out[k + 1] == s[k + 1]);
        } else if k + 1 == p {
            assert(out[k] == s[k] && out[k + 1] == x);
        } else if k == p {
            assert(out[k] == x && out[k + 1] == s[k]);
        } else {
            assert(out[k] == s[k - 1] && out[k + 1] == s[k]);
        }
    };
}

/// The sort used by `query` really sorts descending by score.
pub proof fn lemma_sort_desc_sorted(s: Seq<(Seq<char>, u64)>)
    ensures
        desc_sorted(sort_desc(s)),
    decreases s.len(),
{
    if s.len() > 0 {
        lemma_sort_desc_sorted(s.drop_last());
        lemma_insert_desc_sorted(sort_desc(s.drop_last()), s.last());
    }
}

/// Determinism: for a fixed index and query, the specified result is one
/// value, so repeated calls to `query` return identical orderings.
pub proof fn lemma_query_deterministic(
    m: MatcherView,
    text: Seq<char>,
    top_k: int,
    min_score: u64,
    r1: Seq<MatchView>,
    r2: Seq<MatchView>,
)
    requires
        r1 == query_spec(m, text, top_k, min_score),
        r2 == query_spec(m, text, top_k, min_score),
    ensures
        r1 == r2,
{
}

/// The ranking is descending by score, and ranks count from 1 upward.
pub proof fn lemma_query_ordering(m: MatcherView, text: Seq<char>, top_k: int, min_score: u64)
    requires
        top_k >= 0,
    ensures
        forall|i: int|
            0 <= i && i + 1 < query_spec(m, text, top_k, min_score).len()
                ==> (#[trigger] query_spec(m, text, top_k, min_score)[i]).score >= query_spec(
                m,
                text,
                top_k,
                min_score,
            )[i + 1].score,
        forall|i: int|
            0 <= i < query_spec(m, text, top_k, min_score).len()
                ==> (#[trigger] query_spec(m, text, top_k, min_score)[i]).rank == ((i
                + 1) as usize),
{
    let q = doc_view_of(m.vocab, text);
    let sorted = sort_desc(scored_spec(m.entries, q, min_score));
    lemma_sort_desc_sorted(scored_spec(m.entries, q, min_score));
    let cut = if top_k < sorted.len() {
        sorted.take(top_k)
    } else {
        sorted
    };
    assert forall|k: int| 0 <= k && k + 1 < cut.len() implies (#[trigger] cut[k]).1 >= cut[k
        + 1].1 by {
        if top_k < sorted.len() {
            assert(cut[k] == sorted[k] && cut[k + 1] == sorted[k + 1]);
        }
    };
}

/// Snapshot isolation: what `query` returns is a function of the vocabulary
/// and the entry table alone. A query that began against one index keeps
/// describing exactly that index, whatever re-index happens next to the
/// matcher it was taken from.
pub proof fn lemma_snapshot_isolation(
    m1: MatcherView,
    m2: MatcherView,
    text: Seq<char>,
    top_k: int,
    min_score: u64,
)
    requires
        m1.vocab == m2.vocab,
        m1.entries == m2.entries,
    ensures
        query_spec(m1, text, top_k, min_score) == query_spec(m2, text, top_k, min_score),
{
}

/// In a table strictly ordered by identifier, every earlier identifier is
/// below the last one.
proof fn lemma_es_sorted_all_lt_last(es: Seq<EntryView>)
    requires
        es_sorted(es),
        es.len() > 0,
    ensures
        forall|k: int| 0 <= k < es.len() - 1 ==> id_lt((#[trigger] es[k]).id, es.last().id),
    decreases es.len(),
{
    if es.len() > 1 {
        let d = es.drop_last();
        assert(es_sorted(d)) by {
            assert(forall|k: int| 0 <= k && k + 1 < d.len() ==> (#[trigger] d[k]) == es[k] && d[k
                + 1] == es[k + 1]);
        };
        lemma_es_sorted_all_lt_last(d);
        assert forall|k: int| 0 <= k < es.len() - 1 implies id_lt(
            (#[trigger] es[k]).id,
            es.last().id,
        ) by {
            assert(id_lt(es[es.len() - 2].id, es.last().id));
            if k < es.len() - 2 {
                assert(d[k] == es[k]);
                assert(id_lt(es[k].id, d.last().id));
                assert(d.last() == es[es.len() - 2]);
                lemma_lex_trans(
                    vstd::utf8::encode_utf8(es[k].id),
                    vstd::utf8::encode_utf8(es[es.len() - 2].id),
                    vstd::utf8::encode_utf8(es.last().id),
                );
            }
        };
    }
}

/// Every identifier the scoring pass keeps stays below a bound that is
/// above the whole table.
proof fn lemma_scored_ids_bounded(es: Seq<EntryView>, q: DocView, min: u64, u: Seq<char>)
    requires
        forall|k: int| 0 <= k < es.len() ==> id_lt((#[trigger] es[k]).id, u),
    ensures
        forall|k: int| 0 <= k < scored_spec(es, q, min).len() ==> id_lt(
            (#[trigger] scored_spec(es, q, min)[k]).0,
            u,
        ),
    decreases es.len(),
{
    if es.len() > 0 {
        let d = es.drop_last();
        assert(forall|k: int| 0 <= k < d.len() ==> (#[trigger] d[k]) == es[k]);
        lemma_scored_ids_bounded(d, q, min, u);
        let sp = scored_spec(d, q, min);
        assert forall|k: int| 0 <= k < scored_spec(es, q, min).len() implies id_lt(
            (#[trigger] scored_spec(es, q, min)[k]).0,
            u,
        ) by {
            if k < sp.len() {
                assert(scored_spec(es, q, min)[k] == sp[k]);
            } else {
                assert(scored_spec(es, q, min)[k].0 == es.last().id);
            }
        };
    }
}

/// The scoring pass keeps the table's identifier order: before sorting,
/// the kept hits are still strictly ordered by identifier. Together with
/// the stable insertion (`insert_pos` puts a new hit after every equal
/// score), this is how ties end up in identifier order.
pub proof fn lemma_scored_keeps_id_order(es: Seq<EntryView>, q: DocView, min: u64)
    requires
        es_sorted(es),
    ensures
        forall|i: int, j: int|
            0 <= i < j < scored_spec(es, q, min).len() ==> id_lt(
                (#[trigger] scored_spec(es, q, min)[i]).0,
                (#[trigger] scored_spec(es, q, min)[j]).0,
            ),
    decreases es.len(),
{
    if es.len() > 0 {
        let d = es.drop_last();
        assert(es_sorted(d)) by {
            assert(forall|k: int| 0 <= k && k + 1 < d.len() ==> (#[trigger] d[k]) == es[k] && d[k
                + 1] == es[k + 1]);
        };
        lemma_scored_keeps_id_order(d, q, min);
        lemma_es_sorted_all_lt_last(es);
        assert(forall|k: int| 0 <= k < d.len() ==> (#[trigger] d[k]) == es[k]);
        lemma_scored_ids_bounded(d, q, min, es.last().id);
        let sp = scored_spec(d, q, min);
        let sc = scored_spec(es, q, min);
        assert forall|i: int, j: int| 0 <= i < j < sc.len() implies id_lt(
            (#[trigger] sc[i]).0,
            (#[trigger] sc[j]).0,
        ) by {
            if j < sp.len() {
                assert(sc[i] == sp[i] && sc[j] == sp[j]);
            } else {
                assert(sc[i] == sp[i]);
                assert(sc[j].0 == es.last().id);
                assert(id_lt(sp[i].0, es.last().id));
            }
        };
    }
}

/// Ties stand in identifier order.
pub open spec fn tie_ordered(s: Seq<(Seq<char>, u64)>) -> bool {
    forall|i: int, j: int|
        0 <= i < j < s.len() && (#[trigger] s[i]).1 == (#[trigger] s[j]).1 ==> id_lt(
            s[i].0,
            s[j].0,
        )
}

/// Sorting keeps every identifier below a bound that is above the input.
proof fn lemma_sort_ids_bounded(s: Seq<(Seq<char>, u64)>, u: Seq<char>)
    requires
        forall|k: int| 0 <= k < s.len() ==> id_lt((#[trigger] s[k]).0, u),
    ensures
        forall|k: int| 0 <= k < sort_desc(s).len() ==> id_lt((#[trigger] sort_desc(s)[k]).0, u),
    decreases s.len(),
{
    if s.len() > 0 {
        let d = s.drop_last();
        assert(forall|k: int| 0 <= k < d.len() ==> (#[trigger] d[k]) == s[k]);
        lemma_sort_ids_bounded(d, u);
        let t = sort_desc(d);
        let x = s.last();
        let p = insert_pos(t, x);
        lemma_sort_desc_sorted(d);
        lemma_insert_pos_props(t, x);
        assert forall|k: int| 0 <= k < sort_desc(s).len() implies id_lt(
            (#[trigger] sort_desc(s)[k]).0,
            u,
        ) by {
            if k < p {
                assert(sort_desc(s)[k] == t[k]);
            } else if k == p {
                assert(sort_desc(s)[k] == x);
            } else {
                assert(sort_desc(s)[k] == t[k - 1]);
            }
        };
    }
}

/// A stable descending insertion keeps ties in identifier order, when the
/// new element's identifier is above everything already present.
proof fn lemma_insert_desc_tie(t: Seq<(Seq<char>, u64)>, x: (Seq<char>, u64))
    requires
        desc_sorted(t),
        tie_ordered(t),
        forall|k: int| 0 <= k < t.len() ==> id_lt((#[trigger] t[k]).0, x.0),
    ensures
        tie_ordered(insert_desc(t, x)),
{
    lemma_insert_pos_props(t, x);
    let p = insert_pos(t, x);
    let out = insert_desc(t, x);
    assert forall|i: int, j: int|
        0 <= i < j < out.len() && (#[trigger] out[i]).1 == (#[trigger] out[j]).1 implies id_lt(
        out[i].0,
        out[j].0,
    ) by {
        if j < p {
            assert(out[i] == t[i] && out[j] == t[j]);
        } else if j == p {
            assert(out[i] == t[i] && out[j] == x);
        } else if i == p {
            assert(out[i] == x && out[j] == t[j - 1]);
            assert(t[j - 1].1 < x.1);
        } else if i < p {
            assert(out[i] == t[i] && out[j] == t[j - 1]);
        } else {
            assert(out[i] == t[i - 1] && out[j] == t[j - 1]);
        }
    };
}

/// Sorting a strictly id-ordered score list leaves every tie in
/// identifier order: the sort is stable and scans entries in id order.
pub proof fn lemma_sort_tie_ordered(s: Seq<(Seq<char>, u64)>)
    requires
        forall|i: int, j: int| 0 <= i < j < s.len() ==> id_lt((#[trigger] s[i]).0, (
        #[trigger] s[j]).0),
    ensures
        tie_ordered(sort_desc(s)),
    decreases s.len(),
{
    if s.len() > 0 {
        let d = s.drop_last();
        assert(forall|k: int| 0 <= k < d.len() ==> (#[trigger] d[k]) == s[k]);
        lemma_sort_tie_ordered(d);
        lemma_sort_desc_sorted(d);
        lemma_sort_ids_bounded(d, s.last().0);
        lemma_insert_desc_tie(sort_desc(d), s.last());
    }
}

/// The full tie-break law: among hits with equal scores, `query` orders by
/// identifier, lexically by UTF-8 bytes.
pub proof fn lemma_query_tie_break(m: MatcherView, text: Seq<char>, top_k: int, min_score: u64)
    requires
        es_sorted(m.entries),
        top_k >= 0,
    ensures
        forall|i: int, j: int|
            0 <= i < j < query_spec(m, text, top_k, min_score).len() && (#[trigger] query_spec(
                m,
                text,
                top_k,
                min_score,
            )[i]).score == (#[trigger] query_spec(m, text, top_k, min_score)[j]).score ==> id_lt(
                query_spec(m, text, top_k, min_score)[i].id,
                query_spec(m, text, top_k, min_score)[j].id,
            ),
{
    let q = doc_view_of(m.vocab, text);
    let sc = scored_spec(m.entries, q, min_score);
    lemma_scored_keeps_id_order(m.entries, q, min_score);
    lemma_sort_tie_ordered(sc);
    let sorted = sort_desc(sc);
    let cut = if top_k < sorted.len() {
        sorted.take(top_k)
    } else {
        sorted
    };
    assert forall|i: int, j: int|
        0 <= i < j < rank_spec(cut).len() && (#[trigger] rank_spec(cut)[i]).score == (
        #[trigger] rank_spec(cut)[j]).score implies id_lt(
        rank_spec(cut)[i].id,
        rank_spec(cut)[j].id,
    ) by {
        if top_k < sorted.len() {
            assert(cut[i] == sorted[i] && cut[j] == sorted[j]);
        }
        assert(cut[i].1 == cut[j].1);
    };
}

/// Monotonic vocabulary at the matcher: however many change events are
/// applied, every term index assigned before keeps naming the same term,
/// so vectors computed earlier stay valid references into the vocabulary.
pub proof fn lemma_apply_change_monotonic(
    m: MatcherView,
    ups: Seq<InputView>,
    removed: Seq<Seq<char>>,
)
    ensures
        m.vocab.terms.is_prefix_of(apply_spec(m, ups, removed).vocab.terms),
        forall|i: int| 0 <= i < m.vocab.terms.len() ==> apply_spec(m, ups, removed).vocab.terms[i]
            == m.vocab.terms[i],
{
    crate::vectorizer::lemma_vocabulary_monotonic(m.vocab, descriptions(ups), ups.len() as int);
}

} // verus!
