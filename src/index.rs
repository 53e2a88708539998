//! The index: a staging buffer, a build that numbers and indexes the staged
//! documents once, and AND queries over the frozen result.
use crate::document::{field_terms, DocId, Document, DocumentView};
use crate::inverted_index::{postings_of, InvertedIndex, InvertedIndexBuilder};
use crate::postings::{bitmap_set, copy_bitmap, first_values, intersect, lowest};
use crate::tokenizer::{terms, Tokenizer};
use rayon::iter::{IntoParallelRefIterator, ParallelIterator};
use roaring::RoaringBitmap;
use vstd::prelude::*;

verus! {

/// What an index refuses.
#[derive(Debug, Clone, Copy, PartialEq, Eq, Structural)]
pub enum IndexError {
    /// Documents were added to an index that is already built.
    InvalidState,
}

/// An index as plain values: whether it is built, the documents staged for
/// the build, and the documents stored by it, at the position of their id.
pub ghost struct IndexView {
    pub built: bool,
    pub staged: Seq<DocumentView>,
    pub stored: Seq<DocumentView>,
}

/// Whether term `t` occurs in a field value of document `d`.
pub open spec fn has_term(d: DocumentView, t: Seq<char>) -> bool {
    field_terms(d.fields).contains(t)
}

/// The ids of the stored documents that hold `t`.
pub open spec fn posting_set(stored: Seq<DocumentView>, t: Seq<char>) -> Set<u32> {
    Set::new(|d: u32| (d as int) < stored.len() && has_term(stored[d as int], t))
}

/// The ids of the stored documents that hold every term of query `q`; none
/// when `q` has no term.
pub open spec fn matches(stored: Seq<DocumentView>, q: Seq<char>) -> Set<u32> {
    Set::new(
        |d: u32|
            terms(q).len() > 0 && (d as int) < stored.len() && forall|i: int|
                0 <= i < terms(q).len() ==> has_term(stored[d as int], #[trigger] terms(q)[i]),
    )
}

/// The staged documents with the ids a build gives them: 0, 1, ... in order.
pub open spec fn numbered(staged: Seq<DocumentView>) -> Seq<DocumentView> {
    Seq::new(staged.len(), |i: int| DocumentView { id: i as DocId, fields: staged[i].fields })
}

/// What `build` makes of an index: a built index, or one with nothing
/// staged, stays as it is; otherwise the staged documents are numbered and
/// stored, and the index is built.
pub open spec fn built_view(v: IndexView) -> IndexView {
    if v.built || v.staged.len() == 0 {
        v
    } else {
        IndexView { built: true, staged: seq![], stored: numbered(v.staged) }
    }
}

/// The ids of a sequence of documents, as postings hold them.
pub open spec fn result_ids(r: Seq<DocumentView>) -> Seq<u32> {
    r.map_values(|d: DocumentView| d.id as u32)
}

/// Building numbers the staged documents exactly 0, 1, ..., n - 1 in staging
/// order, each id used once, and keeps their fields.
pub proof fn lemma_build_assigns_dense_ids(v: IndexView)
    requires
        !v.built,
        v.stored.len() == 0,
        v.staged.len() <= u32::MAX as nat + 1,
    ensures
        built_view(v).stored.len() == v.staged.len(),
        forall|i: int|
            0 <= i < v.staged.len() ==> (#[trigger] built_view(v).stored[i]).id == i
                && built_view(v).stored[i].fields == v.staged[i].fields,
        forall|i: int, j: int|
            0 <= i < j < v.staged.len() ==> (#[trigger] built_view(v).stored[i]).id
                != (#[trigger] built_view(v).stored[j]).id,
{
}

/// A query with no term, or with a term that no stored document holds,
/// matches nothing.
pub proof fn lemma_absent_or_no_terms_match_nothing(stored: Seq<DocumentView>, q: Seq<char>)
    requires
        terms(q).len() == 0 || exists|i: int|
            0 <= i < terms(q).len() && forall|d: int|
                0 <= d < stored.len() ==> !has_term(stored[d], #[trigger] terms(q)[i]),
    ensures
        matches(stored, q) == Set::<u32>::empty(),
{
    assert forall|d: u32| !#[trigger] matches(stored, q).contains(d) by {
        if terms(q).len() > 0 && matches(stored, q).contains(d) {
            let i = choose|i: int|
                0 <= i < terms(q).len() && forall|e: int|
                    0 <= e < stored.len() ==> !has_term(stored[e], #[trigger] terms(q)[i]);
            assert(has_term(stored[d as int], terms(q)[i]));
        }
    }
    assert(matches(stored, q) =~= Set::<u32>::empty());
}

/// Building a second time, with nothing newly staged, changes nothing.
pub proof fn lemma_build_idempotent(v: IndexView)
    ensures
        built_view(built_view(v)) == built_view(v),
{
}

/// A document found by a search after the build has the fields it was staged
/// with: the one staged at the position of its id.
pub proof fn lemma_round_trip(v: IndexView, found: DocumentView)
    requires
        !v.built,
        v.stored.len() == 0,
        v.staged.len() <= u32::MAX as nat + 1,
        built_view(v).stored.contains(found),
    ensures
        0 <= found.id < v.staged.len(),
        found.fields == v.staged[found.id as int].fields,
{
    let i = choose|i: int| 0 <= i < built_view(v).stored.len() && built_view(v).stored[i] == found;
    assert(found.id == i);
}

/// The largest number of documents that `search` returns.
pub const MAX_RESULTS: usize = 10;

/// Relies on rayon's `par_iter().map(..).collect()` on a slice: the closure,
/// which calls the verified `Document::terms`, runs once per document on the
/// threads of rayon's pool, and the results are collected in the order of the
/// documents.
#[verifier::external_body]
fn terms_in_parallel(docs: &Vec<Document>) -> (r: Vec<Vec<Vec<char>>>)
    ensures
        r.deep_view() == docs@.map_values(|d: Document| field_terms(d@.fields)),
{
    docs.par_iter().map(|d| d.terms()).collect()
}

/// A text-search index. It stages documents until `build`, which numbers them
/// in staging order, stores them and indexes their terms; from then on it
/// answers queries and accepts no more documents.
pub struct Index {
    docs: Vec<Document>,
    inverted_index: InvertedIndex,
    tokenizer: Tokenizer,
    staged_docs: Vec<Document>,
    is_built: bool,
}

impl View for Index {
    type V = IndexView;

    closed spec fn view(&self) -> IndexView {
        IndexView {
            built: self.is_built,
            staged: self.staged_docs@.map_values(|d: Document| d@),
            stored: self.docs@.map_values(|d: Document| d@),
        }
    }
}

impl Default for Index {
    fn default() -> (r: Self)
        ensures
            r.wf(),
            r@ == (IndexView { built: false, staged: seq![], stored: seq![] }),
    {
        Index::new()
    }
}

impl Index {
    /// Each stored document sits at the position of its id, ids fit a
    /// postings list, each term's postings list holds exactly the documents
    /// with that term, the dictionary holds no term without one, nothing is stored before the build and nothing is
    /// staged after it.
    pub closed spec fn wf(&self) -> bool {
        &&& self.inverted_index.wf()
        &&& self.docs.len() <= u32::MAX as nat + 1
        &&& forall|i: int| 0 <= i < self.docs.len() ==> (#[trigger] self.docs@[i])@.id == i
        &&& forall|t: Seq<char>| #[trigger]
            postings_of(self.inverted_index@, t) == posting_set(self@.stored, t)
        &&& forall|t: Seq<char>| #[trigger]
            self.inverted_index@.contains_key(t) ==> self.inverted_index@[t] != Set::<u32>::empty()
        &&& !self.is_built ==> self.docs.len() == 0
        &&& self.is_built ==> self.staged_docs.len() == 0
    }

    /// The term dictionary with each term's postings.
    pub closed spec fn dictionary(&self) -> Map<Seq<char>, Set<u32>> {
        self.inverted_index@
    }

    /// The dictionary holds exactly the terms of the stored documents, each
    /// with the ids of the stored documents that hold it.
    pub proof fn lemma_dictionary_exact(&self, t: Seq<char>)
        requires
            self.wf(),
        ensures
            self.dictionary().contains_key(t) <==> exists|d: int|
                0 <= d < self@.stored.len() && has_term(self@.stored[d], t),
            self.dictionary().contains_key(t) ==> self.dictionary()[t] == posting_set(
                self@.stored,
                t,
            ),
    {
        assert(postings_of(self.inverted_index@, t) == posting_set(self@.stored, t));
        if self.dictionary().contains_key(t) {
            let ps = self.inverted_index@[t];
            assert(ps != Set::<u32>::empty());
            if !(exists|x: u32| ps.contains(x)) {
                assert(ps =~= Set::<u32>::empty());
            }
            let x = choose|x: u32| ps.contains(x);
            assert(posting_set(self@.stored, t).contains(x));
        }
        if exists|d: int| 0 <= d < self@.stored.len() && has_term(self@.stored[d], t) {
            let d = choose|d: int| 0 <= d < self@.stored.len() && has_term(self@.stored[d], t);
            assert(posting_set(self@.stored, t).contains(d as u32));
        }
    }

    /// Before the build no query matches anything, whatever is staged.
    pub proof fn lemma_unbuilt_matches_nothing(&self, q: Seq<char>)
        requires
            self.wf(),
            !self@.built,
        ensures
            matches(self@.stored, q) == Set::<u32>::empty(),
    {
        assert(matches(self@.stored, q) =~= Set::<u32>::empty());
    }

    /// An empty index in the staging state.
    pub fn new() -> (r: Index)
        ensures
            r.wf(),
            r@ == (IndexView { built: false, staged: seq![], stored: seq![] }),
    {
        let r = Index {
            docs: Vec::new(),
            inverted_index: InvertedIndex::new(),
            tokenizer: Tokenizer::new(),
            staged_docs: Vec::new(),
            is_built: false,
        };
        assert(r@.staged =~= seq![]);
        assert(r@.stored =~= seq![]);
        assert forall|t: Seq<char>| #[trigger]
            postings_of(r.inverted_index@, t) == posting_set(r@.stored, t) by {
            assert(posting_set(r@.stored, t) =~= Set::empty());
        }
        r
    }

    /// Stages `docs` for the build, after those staged before. A built index
    /// refuses them with `InvalidState` and stays as it was.
    pub fn add_documents(&mut self, docs: Vec<Document>) -> (r: Result<(), IndexError>)
        requires
            old(self).wf(),
        ensures
            final(self).wf(),
            old(self)@.built ==> r == Err::<(), IndexError>(IndexError::InvalidState) && *final(self)
                == *old(self),
            !old(self)@.built ==> r is Ok && final(self)@ == (IndexView {
                staged: old(self)@.staged + docs@.map_values(|d: Document| d@),
                ..old(self)@
            }),
    {
        if self.is_built {
            return Err(IndexError::InvalidState);
        }
        let ghost before = self@;
        let mut docs = docs;
        let ghost added = docs@;
        self.staged_docs.append(&mut docs);
        assert(self@.staged =~= before.staged + added.map_values(|d: Document| d@));
        assert(self@.stored == before.stored);
        Ok(())
    }

    /// Numbers the staged documents 0, 1, ... in staging order, stores them,
    /// indexes the terms of their field values and makes the index
    /// searchable. Nothing happens on a built index or with nothing staged.
    pub fn build(&mut self)
        requires
            old(self).wf(),
            old(self)@.staged.len() <= u32::MAX as nat + 1,
        ensures
            final(self).wf(),
            old(self)@.built || old(self)@.staged.len() == 0 ==> *final(self) == *old(self),
            final(self)@ == built_view(old(self)@),
    {
        if self.is_built || self.staged_docs.len() == 0 {
            return ;
        }
        let ghost staged = self@.staged;
        let n = self.staged_docs.len();
        let mut i: usize = 0;
        while i < n
            invariant
                n == self.staged_docs.len(),
                staged == self@.staged,
                n <= u32::MAX as nat + 1,
                i <= n,
                self.docs.len() == i,
                forall|k: int|
                    0 <= k < i ==> (#[trigger] self.docs@[k])@ == (DocumentView {
                        id: k as DocId,
                        fields: staged[k].fields,
                    }),
            decreases n - i,
        {
            let d = self.staged_docs[i].duplicate().with_id(i as DocId);
            self.docs.push(d);
            i = i + 1;
        }
        let ghost stored = self.docs@.map_values(|d: Document| d@);
        assert(stored =~= numbered(staged));
        let per_doc = terms_in_parallel(&self.docs);
        let ghost all = per_doc.deep_view();
        assert(all.len() == per_doc.len());
        assert forall|x: int| 0 <= x < n implies #[trigger] all[x] == field_terms(
            stored[x].fields,
        ) by {}
        let mut builder = InvertedIndexBuilder::new();
        let mut d: usize = 0;
        while d < n
            invariant
                n == per_doc.len(),
                n == self.docs.len(),
                n <= u32::MAX as nat + 1,
                all == per_doc.deep_view(),
                d <= n,
                builder.wf(),
                forall|t: Seq<char>| #[trigger]
                    postings_of(builder@, t) == Set::new(
                        |x: u32| (x as int) < d && all[x as int].contains(t),
                    ),
            decreases n - d,
        {
            let ghost row = all[d as int];
            let m = per_doc[d].len();
            assert(row.len() == m);
            let mut j: usize = 0;
            while j < m
                invariant
                    n == per_doc.len(),
                    all == per_doc.deep_view(),
                    d < n <= u32::MAX as nat + 1,
                    row == all[d as int],
                    m == row.len(),
                    j <= m,
                    builder.wf(),
                    forall|t: Seq<char>| #[trigger]
                        postings_of(builder@, t) == Set::new(
                            |x: u32|
                                ((x as int) < d && all[x as int].contains(t)) || (x as int == d
                                    && row.take(j as int).contains(t)),
                        ),
                decreases m - j,
            {
                let ghost old_b = builder@;
                assert(per_doc[d as int][j as int]@ == row[j as int]);
                builder.add(&per_doc[d][j], d as u32);
                assert forall|t: Seq<char>| #[trigger]
                    postings_of(builder@, t) == Set::new(
                        |x: u32|
                            ((x as int) < d && all[x as int].contains(t)) || (x as int == d
                                && row.take(j + 1).contains(t)),
                    ) by {
                    let a = row.take(j + 1);
                    let b = row.take(j as int);
                    assert(a =~= b.push(row[j as int]));
                    assert(a.contains(t) <==> (b.contains(t) || row[j as int] == t)) by {
                        if a.contains(t) {
                            let q = choose|q: int| 0 <= q < a.len() && #[trigger] a[q] == t;
                            if q < j {
                                assert(b[q] == t);
                            }
                        }
                        if b.contains(t) {
                            let q = choose|q: int| 0 <= q < b.len() && #[trigger] b[q] == t;
                            assert(a[q] == t);
                        }
                        if row[j as int] == t {
                            assert(a[j as int] == t);
                        }
                    }
                    let before = Set::new(
                        |x: u32|
                            ((x as int) < d && all[x as int].contains(t)) || (x as int == d
                                && b.contains(t)),
                    );
                    let after = Set::new(
                        |x: u32|
                            ((x as int) < d && all[x as int].contains(t)) || (x as int == d
                                && a.contains(t)),
                    );
                    assert(postings_of(old_b, t) == before);
                    if t == row[j as int] {
                        assert(postings_of(builder@, t) == before.insert(d as u32));
                        assert(after =~= before.insert(d as u32));
                    } else {
                        assert(postings_of(builder@, t) == before);
                        assert(after =~= before);
                    }
                }
                j = j + 1;
            }
            assert(row.take(m as int) =~= row);
            assert forall|t: Seq<char>| #[trigger]
                postings_of(builder@, t) == Set::new(
                    |x: u32| (x as int) < d + 1 && all[x as int].contains(t),
                ) by {
                assert(postings_of(builder@, t) =~= Set::new(
                    |x: u32| (x as int) < d + 1 && all[x as int].contains(t),
                ));
            }
            d = d + 1;
        }
        self.inverted_index = InvertedIndex::from_builder(builder);
        self.staged_docs = Vec::new();
        self.is_built = true;
        assert(self@.stored == stored);
        assert(self@.staged =~= seq![]);
        assert forall|t: Seq<char>| #[trigger]
            postings_of(self.inverted_index@, t) == posting_set(self@.stored, t) by {
            assert(postings_of(self.inverted_index@, t) =~= posting_set(self@.stored, t));
        }
    }

    /// The postings of the term with ordinal `k`.
    closed spec fn postings_at(&self, k: int) -> Set<u32> {
        self.inverted_index@[self.inverted_index.term_at(k)]
    }

    /// Reorders the ordinals `ords` by the size of their postings lists,
    /// smallest first.
    fn order_by_size(&self, ords: &mut Vec<usize>)
        requires
            self.wf(),
            forall|i: int| 0 <= i < old(ords).len() ==> #[trigger] old(ords)@[i] < self.inverted_index.term_count(),
        ensures
            final(ords).len() == old(ords).len(),
            forall|i: int| 0 <= i < final(ords).len() ==> #[trigger] final(ords)@[i] < self.inverted_index.term_count(),
            forall|x: usize| final(ords)@.contains(x) <==> old(ords)@.contains(x),
            forall|a: int, b: int|
                0 <= a < b < final(ords).len() ==> self.postings_at(#[trigger] final(ords)@[a] as int).len()
                    <= self.postings_at(#[trigger] final(ords)@[b] as int).len(),
    {
        let ghost orig = ords@;
        let n = ords.len();
        let mut i: usize = 0;
        while i < n
            invariant
                self.wf(),
                n == ords.len(),
                i <= n,
                forall|k: int| 0 <= k < n ==> #[trigger] ords@[k] < self.inverted_index.term_count(),
                forall|x: usize| ords@.contains(x) <==> orig.contains(x),
                forall|a: int, b: int|
                    0 <= a < b < n && a < i ==> self.postings_at(#[trigger] ords@[a] as int).len()
                        <= self.postings_at(#[trigger] ords@[b] as int).len(),
            decreases n - i,
        {
            let mut best = i;
            let mut best_len = self.inverted_index.postings_list(ords[i]).len();
            let mut j = i + 1;
            while j < n
                invariant
                    self.wf(),
                    n == ords.len(),
                    i <= best < j <= n,
                    forall|k: int| 0 <= k < n ==> #[trigger] ords@[k] < self.inverted_index.term_count(),
                    best_len as nat == self.postings_at(ords@[best as int] as int).len(),
                    forall|b: int| i <= b < j ==> self.postings_at(ords@[best as int] as int).len()
                        <= self.postings_at(#[trigger] ords@[b] as int).len(),
                decreases n - j,
            {
                let len = self.inverted_index.postings_list(ords[j]).len();
                if len < best_len {
                    best = j;
                    best_len = len;
                }
                j = j + 1;
            }
            let ghost prev = ords@;
            let a = ords[i];
            let b = ords[best];
            ords.set(i, b);
            ords.set(best, a);
            assert forall|x: usize| ords@.contains(x) <==> prev.contains(x) by {
                if ords@.contains(x) {
                    let k = choose|k: int| 0 <= k < n && ords@[k] == x;
                    if k == i {
                        assert(prev[best as int] == x);
                    } else if k == best {
                        assert(prev[i as int] == x);
                    } else {
                        assert(prev[k] == x);
                    }
                }
                if prev.contains(x) {
                    let k = choose|k: int| 0 <= k < n && prev[k] == x;
                    if k == i {
                        assert(ords@[best as int] == x);
                    } else if k == best {
                        assert(ords@[i as int] == x);
                    } else {
                        assert(ords@[k] == x);
                    }
                }
            }
            assert forall|a2: int, b2: int|
                0 <= a2 < b2 < n && a2 < i + 1 implies self.postings_at(#[trigger] ords@[a2] as int).len()
                    <= self.postings_at(#[trigger] ords@[b2] as int).len() by {
                if a2 < i {
                    if b2 == best {
                        assert(ords@[b2] == prev[i as int]);
                    } else if b2 == i {
                        assert(ords@[b2] == prev[best as int]);
                    } else {
                        assert(ords@[b2] == prev[b2]);
                    }
                    assert(ords@[a2] == prev[a2]);
                } else {
                    assert(ords@[a2] == prev[best as int]);
                    if b2 == best {
                        assert(ords@[b2] == prev[i as int]);
                    } else {
                        assert(ords@[b2] == prev[b2]);
                    }
                }
            }
            i = i + 1;
        }
    }

    /// The ids of the documents that hold every term of `query`, found by
    /// intersecting the terms' postings lists, smallest first. Empty when the
    /// query has no term, when one of its terms is in no document, and before
    /// the build.
    pub fn search_ids(&self, query: &str) -> (r: RoaringBitmap)
        requires
            self.wf(),
        ensures
            bitmap_set(r) == matches(self@.stored, query@),
            bitmap_set(r).finite(),
    {
        let toks = self.tokenizer.terms_of(query);
        let ghost ts = toks.deep_view();
        if toks.len() == 0 {
            assert(matches(self@.stored, query@) =~= Set::empty());
            return RoaringBitmap::new();
        }
        let mut ords: Vec<usize> = Vec::new();
        let mut i: usize = 0;
        while i < toks.len()
            invariant
                self.wf(),
                ts == toks.deep_view(),
                ts == terms(query@),
                i <= toks.len(),
                ords.len() == i,
                forall|m: int|
                    0 <= m < i ==> #[trigger] ords@[m] < self.inverted_index.term_count()
                        && self.inverted_index.term_at(ords@[m] as int) == ts[m]
                        && self.inverted_index@.contains_key(ts[m]),
            decreases toks.len() - i,
        {
            assert(toks[i as int]@ == ts[i as int]);
            match self.inverted_index.ordinal(&toks[i]) {
                Some(k) => {
                    ords.push(k);
                },
                None => {
                    assert(matches(self@.stored, query@) =~= Set::empty()) by {
                        assert(postings_of(self.inverted_index@, ts[i as int]) == posting_set(
                            self@.stored,
                            ts[i as int],
                        ));
                        assert(posting_set(self@.stored, ts[i as int]) =~= Set::empty());
                        assert forall|y: u32| !#[trigger] matches(self@.stored, query@).contains(
                            y,
                        ) by {
                            if matches(self@.stored, query@).contains(y) {
                                assert(has_term(self@.stored[y as int], ts[i as int]));
                                assert(posting_set(self@.stored, ts[i as int]).contains(y));
                            }
                        }
                    }
                    return RoaringBitmap::new();
                },
            }
            i = i + 1;
        }
        let ghost orig = ords@;
        let n = ords.len();
        self.order_by_size(&mut ords);
        let mut acc = copy_bitmap(self.inverted_index.postings_list(ords[0]));
        assert forall|y: u32|
            bitmap_set(acc).contains(y) <==> forall|k: int|
                0 <= k < 1 ==> #[trigger] self.postings_at(ords@[k] as int).contains(y) by {
            assert(bitmap_set(acc) == self.postings_at(ords@[0] as int));
            if forall|k: int| 0 <= k < 1 ==> #[trigger] self.postings_at(ords@[k] as int).contains(y) {
                assert(self.postings_at(ords@[0] as int).contains(y));
            }
            if bitmap_set(acc).contains(y) {
                assert forall|k: int| 0 <= k < 1 implies #[trigger] self.postings_at(
                    ords@[k] as int,
                ).contains(y) by {
                    assert(k == 0);
                }
            }
        }
        let mut m: usize = 1;
        while m < n
            invariant
                self.wf(),
                n == ords.len(),
                1 <= m <= n,
                forall|k: int| 0 <= k < n ==> #[trigger] ords@[k] < self.inverted_index.term_count(),
                bitmap_set(acc).finite(),
                forall|y: u32|
                    bitmap_set(acc).contains(y) <==> forall|k: int|
                        0 <= k < m ==> #[trigger] self.postings_at(ords@[k] as int).contains(y),
            decreases n - m,
        {
            let ghost prev = bitmap_set(acc);
            acc = intersect(acc, self.inverted_index.postings_list(ords[m]));
            assert forall|y: u32|
                bitmap_set(acc).contains(y) <==> forall|k: int|
                    0 <= k < m + 1 ==> #[trigger] self.postings_at(ords@[k] as int).contains(y) by {
                if forall|k: int| 0 <= k < m + 1 ==> #[trigger] self.postings_at(ords@[k] as int).contains(y) {
                    assert(self.postings_at(ords@[m as int] as int).contains(y));
                }
            }
            m = m + 1;
        }
        let ghost stored = self@.stored;
        assert forall|k: int| 0 <= k < n implies #[trigger] self.postings_at(orig[k] as int)
            == posting_set(stored, ts[k]) by {
            assert(postings_of(self.inverted_index@, ts[k]) == posting_set(stored, ts[k]));
        }
        assert(bitmap_set(acc) =~= matches(stored, query@)) by {
            assert forall|y: u32| bitmap_set(acc).contains(y) implies matches(stored, query@).contains(y) by {
                assert forall|k: int| 0 <= k < ts.len() implies has_term(stored[y as int], #[trigger] ts[k]) by {
                    assert(orig.contains(orig[k]));
                    let q = choose|q: int| 0 <= q < n && ords@[q] == orig[k];
                    assert(self.postings_at(ords@[q] as int).contains(y));
                    assert(posting_set(stored, ts[k]).contains(y));
                }
                assert(self.postings_at(orig[0] as int).contains(y)) by {
                    assert(orig.contains(orig[0]));
                    let q = choose|q: int| 0 <= q < n && ords@[q] == orig[0];
                    assert(self.postings_at(ords@[q] as int).contains(y));
                }
                assert(posting_set(stored, ts[0]).contains(y));
            }
            assert forall|y: u32| matches(stored, query@).contains(y) implies bitmap_set(acc).contains(y) by {
                assert forall|k: int| 0 <= k < n implies #[trigger] self.postings_at(ords@[k] as int).contains(y) by {
                    assert(ords@.contains(ords@[k]));
                    let q = choose|q: int| 0 <= q < n && orig[q] == ords@[k];
                    assert(has_term(stored[y as int], ts[q]));
                    assert(posting_set(stored, ts[q]).contains(y));
                }
            }
        }
        acc
    }

    /// The stored documents that hold every term of `query`: the first ten
    /// matches by id, in increasing id order.
    pub fn search(&self, query: &str) -> (r: Vec<Document>)
        requires
            self.wf(),
        ensures
            lowest(matches(self@.stored, query@), MAX_RESULTS as nat, result_ids(r@.map_values(|d: Document| d@))),
            forall|i: int|
                0 <= i < r.len() ==> (#[trigger] r@[i])@.id < self@.stored.len() && r@[i]@
                    == self@.stored[r@[i]@.id as int],
    {
        let ids = self.search_ids(query);
        let first = first_values(&ids, MAX_RESULTS);
        let ghost s = bitmap_set(ids);
        let mut out: Vec<Document> = Vec::new();
        let mut i: usize = 0;
        while i < first.len()
            invariant
                self.wf(),
                s == matches(self@.stored, query@),
                lowest(s, MAX_RESULTS as nat, first@),
                i <= first.len(),
                out.len() == i,
                forall|k: int|
                    0 <= k < i ==> (#[trigger] out@[k])@ == self@.stored[first@[k] as int] && (
                    first@[k] as int) < self@.stored.len(),
            decreases first.len() - i,
        {
            assert(s.contains(first@[i as int]));
            let doc = self.docs[first[i] as usize].duplicate();
            out.push(doc);
            i = i + 1;
        }
        assert(result_ids(out@.map_values(|d: Document| d@)) =~= first@);
        out
    }
}

} // verus!
