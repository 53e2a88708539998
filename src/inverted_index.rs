//! The term dictionary and its postings lists: a build-time accumulator and
//! the frozen, read-only index that it turns into.
use crate::postings::bitmap_set;
use core::cmp::Ordering;
use roaring::RoaringBitmap;
use vstd::prelude::*;

verus! {

/// Strict lexicographic order on terms, by code point.
pub open spec fn term_lt(a: Seq<char>, b: Seq<char>) -> bool
    decreases a.len(),
{
    if a.len() == 0 {
        b.len() > 0
    } else if b.len() == 0 {
        false
    } else if a[0] != b[0] {
        (a[0] as int) < (b[0] as int)
    } else {
        term_lt(a.drop_first(), b.drop_first())
    }
}

proof fn lemma_term_lt_irreflexive(a: Seq<char>)
    ensures
        !term_lt(a, a),
    decreases a.len(),
{
    if a.len() > 0 {
        lemma_term_lt_irreflexive(a.drop_first());
    }
}

proof fn lemma_term_lt_transitive(a: Seq<char>, b: Seq<char>, c: Seq<char>)
    requires
        term_lt(a, b),
        term_lt(b, c),
    ensures
        term_lt(a, c),
    decreases a.len(),
{
    if a.len() > 0 && b.len() > 0 && c.len() > 0 && a[0] == b[0] && b[0] == c[0] {
        lemma_term_lt_transitive(a.drop_first(), b.drop_first(), c.drop_first());
    }
}

/// Every term comes strictly before the terms after it.
pub open spec fn sorted(ts: Seq<Seq<char>>) -> bool {
    forall|i: int, j: int| 0 <= i < j < ts.len() ==> term_lt(#[trigger] ts[i], #[trigger] ts[j])
}

/// The postings that `m` records for `t`; none if `t` is not a key.
pub open spec fn postings_of(m: Map<Seq<char>, Set<u32>>, t: Seq<char>) -> Set<u32> {
    if m.contains_key(t) {
        m[t]
    } else {
        Set::empty()
    }
}

/// Compares two terms in the order `term_lt`.
fn compare_terms(a: &Vec<char>, b: &Vec<char>) -> (r: Ordering)
    ensures
        r == Ordering::Less <==> term_lt(a@, b@),
        r == Ordering::Greater <==> term_lt(b@, a@),
        r == Ordering::Equal <==> a@ == b@,
{
    let mut i: usize = 0;
    assert(a@.skip(0) =~= a@);
    assert(b@.skip(0) =~= b@);
    while i < a.len() && i < b.len()
        invariant
            i <= a.len(),
            i <= b.len(),
            a@.take(i as int) == b@.take(i as int),
            term_lt(a@, b@) == term_lt(a@.skip(i as int), b@.skip(i as int)),
            term_lt(b@, a@) == term_lt(b@.skip(i as int), a@.skip(i as int)),
        decreases a.len() - i,
    {
        assert(a@.skip(i as int)[0] == a@[i as int]);
        assert(b@.skip(i as int)[0] == b@[i as int]);
        if a[i] != b[i] {
            assert(a@ != b@);
            if a[i] < b[i] {
                return Ordering::Less;
            } else {
                return Ordering::Greater;
            }
        }
        assert(a@.skip(i as int).drop_first() =~= a@.skip(i + 1));
        assert(b@.skip(i as int).drop_first() =~= b@.skip(i + 1));
        assert(a@.take(i + 1) =~= a@.take(i as int).push(a@[i as int]));
        assert(b@.take(i + 1) =~= b@.take(i as int).push(b@[i as int]));
        i = i + 1;
    }
    if i < b.len() {
        assert(a@.take(i as int) =~= a@);
        assert(a@ != b@);
        Ordering::Less
    } else if i < a.len() {
        assert(b@.take(i as int) =~= b@);
        assert(a@ != b@);
        Ordering::Greater
    } else {
        assert(a@ =~= a@.take(i as int));
        assert(b@ =~= b@.take(i as int));
        proof {
            lemma_term_lt_irreflexive(a@);
        }
        Ordering::Equal
    }
}

/// A copy of a term.
fn copy_term(t: &Vec<char>) -> (r: Vec<char>)
    ensures
        r@ == t@,
{
    let mut r: Vec<char> = Vec::with_capacity(t.len());
    let mut i: usize = 0;
    while i < t.len()
        invariant
            i <= t.len(),
            r@ == t@.take(i as int),
        decreases t.len() - i,
    {
        r.push(t[i]);
        i = i + 1;
        assert(r@ =~= t@.take(i as int));
    }
    assert(t@.take(i as int) =~= t@);
    r
}

/// Where `key` stands in the sorted terms: `Ok` with its position, or `Err`
/// with the position at which it would be inserted.
fn find_term(terms: &Vec<Vec<char>>, key: &Vec<char>) -> (r: Result<usize, usize>)
    requires
        sorted(terms.deep_view()),
    ensures
        match r {
            Ok(k) => k < terms.len() && terms.deep_view()[k as int] == key@,
            Err(p) => p <= terms.len() && (forall|i: int|
                0 <= i < p ==> term_lt(#[trigger] terms.deep_view()[i], key@)) && (forall|i: int|
                p <= i < terms.len() ==> term_lt(key@, #[trigger] terms.deep_view()[i])),
        },
{
    let ghost ts = terms.deep_view();
    let mut lo: usize = 0;
    let mut hi: usize = terms.len();
    while lo < hi
        invariant
            ts == terms.deep_view(),
            sorted(ts),
            lo <= hi <= terms.len(),
            forall|i: int| 0 <= i < lo ==> term_lt(#[trigger] ts[i], key@),
            forall|i: int| hi <= i < terms.len() ==> term_lt(key@, #[trigger] ts[i]),
        decreases hi - lo,
    {
        let mid = lo + (hi - lo) / 2;
        assert(ts[mid as int] == terms[mid as int]@);
        match compare_terms(&terms[mid], key) {
            Ordering::Equal => {
                return Ok(mid);
            },
            Ordering::Less => {
                assert forall|i: int| 0 <= i < mid + 1 implies term_lt(#[trigger] ts[i], key@) by {
                    if i < mid {
                        lemma_term_lt_transitive(ts[i], ts[mid as int], key@);
                    }
                }
                lo = mid + 1;
            },
            Ordering::Greater => {
                assert forall|i: int| mid <= i < terms.len() implies term_lt(
                    key@,
                    #[trigger] ts[i],
                ) by {
                    if i > mid {
                        lemma_term_lt_transitive(key@, ts[mid as int], ts[i]);
                    }
                }
                hi = mid;
            },
        }
    }
    Err(lo)
}

/// The term dictionary and postings lists of one build, while documents are
/// still being added: terms stay sorted, and each term's position holds its
/// postings list.
pub struct InvertedIndexBuilder {
    terms: Vec<Vec<char>>,
    postings: Vec<RoaringBitmap>,
    model: Ghost<Map<Seq<char>, Set<u32>>>,
}

/// Sorted distinct terms with one finite, nonempty postings list each,
/// recorded in `model`.
spec fn layout_wf(
    terms: Seq<Seq<char>>,
    postings: Seq<RoaringBitmap>,
    model: Map<Seq<char>, Set<u32>>,
) -> bool {
    &&& terms.len() == postings.len()
    &&& sorted(terms)
    &&& forall|k: int|
        0 <= k < terms.len() ==> #[trigger] model.contains_key(terms[k]) && model[terms[k]]
            == bitmap_set(postings[k]) && bitmap_set(postings[k]).finite()
    &&& forall|t: Seq<char>| #[trigger]
        model.contains_key(t) ==> exists|k: int| 0 <= k < terms.len() && terms[k] == t
    &&& forall|t: Seq<char>| #[trigger] model.contains_key(t) ==> model[t] != Set::<u32>::empty()
}

impl View for InvertedIndexBuilder {
    type V = Map<Seq<char>, Set<u32>>;

    /// Each term seen so far, with the ids recorded against it.
    closed spec fn view(&self) -> Map<Seq<char>, Set<u32>> {
        self.model@
    }
}

impl InvertedIndexBuilder {
    pub closed spec fn wf(&self) -> bool {
        layout_wf(self.terms.deep_view(), self.postings@, self.model@)
    }

    pub fn new() -> (r: InvertedIndexBuilder)
        ensures
            r.wf(),
            r@ == Map::<Seq<char>, Set<u32>>::empty(),
    {
        let r = InvertedIndexBuilder {
            terms: Vec::new(),
            postings: Vec::new(),
            model: Ghost(Map::empty()),
        };
        assert(r.terms.deep_view() =~= Seq::<Seq<char>>::empty());
        r
    }

    /// Records that document `id` holds `term`: creates the term's postings
    /// list if it has none, then inserts `id` into it.
    pub fn add(&mut self, term: &Vec<char>, id: u32)
        requires
            old(self).wf(),
        ensures
            final(self).wf(),
            final(self)@ == old(self)@.insert(term@, postings_of(old(self)@, term@).insert(id)),
    {
        let ghost old_terms = self.terms.deep_view();
        let ghost old_postings = self.postings@;
        let ghost t = term@;
        assert(term.deep_view() =~= t);
        let ghost new_model = self.model@.insert(t, postings_of(self.model@, t).insert(id));
        assert forall|t2: Seq<char>| #[trigger]
            new_model.contains_key(t2) implies new_model[t2] != Set::<u32>::empty() by {
            if t2 == t {
                assert(new_model[t2].contains(id));
            } else {
                assert(self.model@.contains_key(t2));
            }
        }
        match find_term(&self.terms, term) {
            Ok(k) => {
                self.postings[k].insert(id);
                self.model = Ghost(new_model);
                assert(self.terms.deep_view() == old_terms);
                assert(old_terms[k as int] == t);
                assert(self.postings@.len() == old_postings.len());
                assert(bitmap_set(self.postings@[k as int]) == bitmap_set(old_postings[k as int]).insert(id));
                assert(new_model[t] == bitmap_set(self.postings@[k as int]));
                assert forall|k2: int| 0 <= k2 < old_terms.len() implies #[trigger]
                    new_model.contains_key(old_terms[k2]) && new_model[old_terms[k2]]
                        == bitmap_set(self.postings@[k2]) && bitmap_set(
                        self.postings@[k2],
                    ).finite() by {
                    assert(old(self).model@.contains_key(old_terms[k2]));
                    if k2 != k {
                        assert(self.postings@[k2] == old_postings[k2]);
                        if k2 < k {
                            assert(term_lt(old_terms[k2], old_terms[k as int]));
                        } else {
                            assert(term_lt(old_terms[k as int], old_terms[k2]));
                        }
                        lemma_term_lt_irreflexive(t);
                    }
                }
                assert forall|t2: Seq<char>| #[trigger]
                    self.model@.contains_key(t2) implies exists|k2: int|
                    0 <= k2 < old_terms.len() && old_terms[k2] == t2 by {
                    if t2 == t {
                        assert(old_terms[k as int] == t2);
                    }
                }
                assert forall|k2: int| 0 <= k2 < old_terms.len() && k2 != k implies old_terms[k2]
                    != t by {
                    if k2 < k {
                        assert(term_lt(old_terms[k2], old_terms[k as int]));
                    } else {
                        assert(term_lt(old_terms[k as int], old_terms[k2]));
                    }
                    lemma_term_lt_irreflexive(t);
                }
            },
            Err(p) => {
                let mut bm = RoaringBitmap::new();
                bm.insert(id);
                let owned = copy_term(term);
                assert(owned.deep_view() =~= t);
                self.terms.insert(p, owned);
                self.postings.insert(p, bm);
                self.model = Ghost(new_model);
                let ghost ts = self.terms.deep_view();
                assert(ts =~= old_terms.insert(p as int, t));
                assert forall|k2: int| 0 <= k2 < old_terms.len() implies old_terms[k2] != t by {
                    lemma_term_lt_irreflexive(t);
                }
                assert(!old(self)@.contains_key(t));
                assert(sorted(ts)) by {
                    assert forall|i: int, j: int| 0 <= i < j < ts.len() implies term_lt(
                        #[trigger] ts[i],
                        #[trigger] ts[j],
                    ) by {
                        if i < p && j == p {
                        } else if i == p && j > p {
                        } else if i < p && j > p {
                            lemma_term_lt_transitive(ts[i], t, ts[j]);
                        }
                    }
                }
                let ghost ps = self.postings@;
                assert(ps =~= old_postings.insert(p as int, ps[p as int]));
                assert(bitmap_set(ps[p as int]) =~= Set::<u32>::empty().insert(id));
                assert forall|k2: int| 0 <= k2 < ts.len() implies #[trigger]
                    new_model.contains_key(ts[k2]) && new_model[ts[k2]] == bitmap_set(ps[k2])
                        && bitmap_set(ps[k2]).finite() by {
                    if k2 < p {
                        assert(old(self).model@.contains_key(old_terms[k2]));
                        assert(ts[k2] == old_terms[k2] && ps[k2] == old_postings[k2]);
                    } else if k2 > p {
                        assert(old(self).model@.contains_key(old_terms[k2 - 1]));
                        assert(ts[k2] == old_terms[k2 - 1] && ps[k2] == old_postings[k2 - 1]);
                    }
                }
                assert forall|t2: Seq<char>| #[trigger]
                    self.model@.contains_key(t2) implies exists|k2: int|
                    0 <= k2 < ts.len() && ts[k2] == t2 by {
                    if t2 == t {
                        assert(ts[p as int] == t2);
                    } else {
                        let k3 = choose|k3: int| 0 <= k3 < old_terms.len() && old_terms[k3] == t2;
                        if k3 < p {
                            assert(ts[k3] == t2);
                        } else {
                            assert(ts[k3 + 1] == t2);
                        }
                    }
                }
            },
        }
    }
}

/// The frozen index of one build: term dictionary (term to dense ordinal) and
/// the ordinal-indexed postings lists.
pub struct InvertedIndex {
    terms: Vec<Vec<char>>,
    postings: Vec<RoaringBitmap>,
    model: Ghost<Map<Seq<char>, Set<u32>>>,
}

impl View for InvertedIndex {
    type V = Map<Seq<char>, Set<u32>>;

    /// Each term of the dictionary, with its postings.
    closed spec fn view(&self) -> Map<Seq<char>, Set<u32>> {
        self.model@
    }
}

impl InvertedIndex {
    pub closed spec fn wf(&self) -> bool {
        layout_wf(self.terms.deep_view(), self.postings@, self.model@)
    }

    /// The number of terms, and so of ordinals.
    pub closed spec fn term_count(&self) -> nat {
        self.terms@.len()
    }

    /// The term with ordinal `k`.
    pub closed spec fn term_at(&self, k: int) -> Seq<char> {
        self.terms@[k]@
    }

    /// An index without terms.
    pub fn new() -> (r: InvertedIndex)
        ensures
            r.wf(),
            r@ == Map::<Seq<char>, Set<u32>>::empty(),
    {
        let r = InvertedIndex { terms: Vec::new(), postings: Vec::new(), model: Ghost(Map::empty()) };
        assert(r.terms.deep_view() =~= Seq::<Seq<char>>::empty());
        r
    }

    /// Freezes an accumulator; each term's ordinal is its rank in the dictionary.
    pub fn from_builder(b: InvertedIndexBuilder) -> (r: InvertedIndex)
        requires
            b.wf(),
        ensures
            r.wf(),
            r@ == b@,
            forall|t: Seq<char>| #[trigger] r@.contains_key(t) ==> r@[t] != Set::<u32>::empty(),
    {
        InvertedIndex { terms: b.terms, postings: b.postings, model: b.model }
    }

    /// The ordinal of `term`, if it is in the dictionary.
    pub fn ordinal(&self, term: &Vec<char>) -> (r: Option<usize>)
        requires
            self.wf(),
        ensures
            match r {
                Some(k) => k < self.term_count() && self.term_at(k as int) == term@
                    && self@.contains_key(term@),
                None => !self@.contains_key(term@),
            },
    {
        match find_term(&self.terms, term) {
            Ok(k) => {
                assert(self.terms.deep_view()[k as int] == self.terms@[k as int]@);
                Some(k)
            },
            Err(p) => {
                assert forall|k2: int| 0 <= k2 < self.terms.len() implies self.terms.deep_view()[k2]
                    != term@ by {
                    lemma_term_lt_irreflexive(term@);
                }
                None
            },
        }
    }

    /// The postings list of the term with ordinal `k`.
    pub fn postings_list(&self, k: usize) -> (r: &RoaringBitmap)
        requires
            self.wf(),
            k < self.term_count(),
        ensures
            self@.contains_key(self.term_at(k as int)),
            bitmap_set(*r) == self@[self.term_at(k as int)],
            bitmap_set(*r).finite(),
    {
        assert(self.terms.deep_view()[k as int] == self.terms@[k as int]@);
        &self.postings[k]
    }
}

} // verus!
