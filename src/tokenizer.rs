//! Splits text into normalized terms.
use vstd::prelude::*;
use vstd::std_specs::iter::IteratorSpec;

verus! {

broadcast use vstd::string::group_string_axioms;

/// Whether a character is whitespace, as `char::is_whitespace` decides: the
/// characters with Unicode's `White_Space` property.
pub open spec fn is_space(c: char) -> bool {
    ('\u{9}' <= c && c <= '\u{d}') || c == ' ' || c == '\u{85}' || c == '\u{a0}' || c
        == '\u{1680}' || ('\u{2000}' <= c && c <= '\u{200a}') || c == '\u{2028}' || c
        == '\u{2029}' || c == '\u{202f}' || c == '\u{205f}' || c == '\u{3000}'
}

/// Whether `char::is_alphanumeric` holds of a character.
pub uninterp spec fn is_alnum(c: char) -> bool;


/// What `str::to_lowercase` returns for a string with these characters.
pub uninterp spec fn lower_of(s: Seq<char>) -> Seq<char>;

/// Whether `c` is whitespace.
fn char_is_space(c: char) -> (r: bool)
    ensures
        r == is_space(c),
{
    ('\u{9}' <= c && c <= '\u{d}') || c == ' ' || c == '\u{85}' || c == '\u{a0}' || c
        == '\u{1680}' || ('\u{2000}' <= c && c <= '\u{200a}') || c == '\u{2028}' || c
        == '\u{2029}' || c == '\u{202f}' || c == '\u{205f}' || c == '\u{3000}'
}

/// Relies on `char::is_alphanumeric`.
#[verifier::external_body]
fn char_is_alnum(c: char) -> (r: bool)
    ensures
        r == is_alnum(c),
{
    c.is_alphanumeric()
}

/// Relies on `str::to_lowercase`: the result depends on the characters alone.
#[verifier::external_body]
fn lowercase(s: &str) -> (r: String)
    ensures
        r@ == lower_of(s@),
{
    s.to_lowercase()
}

/// Relies on `String::push`: appends one character.
#[verifier::external_body]
pub(crate) fn push_char(s: &mut String, c: char)
    ensures
        final(s)@ == old(s)@.push(c),
{
    s.push(c)
}

/// The characters of a string, in order.
pub fn chars_of(s: &str) -> (r: Vec<char>)
    ensures
        r@ == s@,
{
    let mut it = s.chars();
    let mut out: Vec<char> = Vec::new();
    loop
        invariant
            out@ + it.remaining() == s@,
            it.decrease() is Some,
        ensures
            out@ == s@,
        decreases it.decrease()->0,
    {
        match it.next() {
            Some(c) => {
                out.push(c);
            },
            None => {
                assert(out@ =~= s@);
                break ;
            },
        }
    }
    out
}

/// A string holding the given characters.
pub fn string_of(cs: &Vec<char>) -> (r: String)
    ensures
        r@ == cs@,
{
    let mut s = String::new();
    let mut i: usize = 0;
    while i < cs.len()
        invariant
            i <= cs.len(),
            s@ == cs@.take(i as int),
        decreases cs.len() - i,
    {
        push_char(&mut s, cs[i]);
        i = i + 1;
        assert(s@ =~= cs@.take(i as int));
    }
    assert(cs@.take(i as int) =~= cs@);
    s
}

/// `s` with its leading non-alphanumeric characters removed.
pub open spec fn trim_start(s: Seq<char>) -> Seq<char>
    decreases s.len(),
{
    if s.len() > 0 && !is_alnum(s[0]) {
        trim_start(s.drop_first())
    } else {
        s
    }
}

/// `s` with its trailing non-alphanumeric characters removed.
pub open spec fn trim_end(s: Seq<char>) -> Seq<char>
    decreases s.len(),
{
    if s.len() > 0 && !is_alnum(s.last()) {
        trim_end(s.drop_last())
    } else {
        s
    }
}

/// `s` with non-alphanumeric characters removed from both ends.
pub open spec fn trim(s: Seq<char>) -> Seq<char> {
    trim_end(trim_start(s))
}

/// The terms (zero or one) that the whitespace-free chunk `chunk` contributes:
/// the chunk trimmed and lowercased, unless trimming leaves nothing.
pub open spec fn chunk_terms(chunk: Seq<char>) -> Seq<Seq<char>> {
    if trim(chunk).len() == 0 {
        seq![]
    } else {
        seq![lower_of(trim(chunk))]
    }
}

/// The end of the run of non-whitespace characters of `s` that contains position `i`.
pub open spec fn run_end(s: Seq<char>, i: int) -> int
    decreases s.len() - i,
{
    if i < 0 || i >= s.len() || is_space(s[i]) {
        i
    } else {
        run_end(s, i + 1)
    }
}

proof fn lemma_run_end_bounds(s: Seq<char>, i: int)
    requires
        0 <= i <= s.len(),
    ensures
        i <= run_end(s, i) <= s.len(),
        run_end(s, i) < s.len() ==> is_space(s[run_end(s, i)]),
    decreases s.len() - i,
{
    if i < s.len() && !is_space(s[i]) {
        lemma_run_end_bounds(s, i + 1);
    }
}

/// The terms of `s` from position `i` on: each maximal run of non-whitespace
/// characters is trimmed of non-alphanumeric characters at both ends, dropped if
/// nothing is left, and lowercased otherwise.
pub open spec fn terms_from(s: Seq<char>, i: int) -> Seq<Seq<char>>
    decreases s.len() - i,
    via terms_from_decreases
{
    if i < 0 || i >= s.len() {
        seq![]
    } else if is_space(s[i]) {
        terms_from(s, i + 1)
    } else {
        let j = run_end(s, i + 1);
        chunk_terms(s.subrange(i, j)) + terms_from(s, j)
    }
}

#[via_fn]
proof fn terms_from_decreases(s: Seq<char>, i: int) {
    if 0 <= i < s.len() && !is_space(s[i]) {
        lemma_run_end_bounds(s, i + 1);
    }
}

/// A nonempty word that begins and ends with an alphanumeric character.
pub open spec fn alnum_bounded(w: Seq<char>) -> bool {
    w.len() > 0 && is_alnum(w[0]) && is_alnum(w.last())
}

/// `t` is the lowercase form of an alphanumeric-bounded word.
pub open spec fn is_normalized_piece(t: Seq<char>) -> bool {
    exists|w: Seq<char>| alnum_bounded(w) && t == lower_of(w)
}

proof fn lemma_trim_start(w: Seq<char>)
    ensures
        trim_start(w).len() > 0 ==> is_alnum(trim_start(w)[0]),
    decreases w.len(),
{
    if w.len() > 0 && !is_alnum(w[0]) {
        lemma_trim_start(w.drop_first());
    }
}

proof fn lemma_trim_end(w: Seq<char>)
    ensures
        trim_end(w).len() > 0 ==> is_alnum(trim_end(w).last()) && trim_end(w)[0] == w[0],
    decreases w.len(),
{
    if w.len() > 0 && !is_alnum(w.last()) {
        lemma_trim_end(w.drop_last());
    }
}

proof fn lemma_chunk_terms(chunk: Seq<char>)
    ensures
        forall|k: int|
            0 <= k < chunk_terms(chunk).len() ==> is_normalized_piece(#[trigger] chunk_terms(chunk)[k]),
{
    lemma_trim_start(chunk);
    lemma_trim_end(trim_start(chunk));
    if trim(chunk).len() > 0 {
        assert(alnum_bounded(trim(chunk)));
        assert(chunk_terms(chunk)[0] == lower_of(trim(chunk)));
    }
}

proof fn lemma_terms_from_bounded(s: Seq<char>, i: int)
    ensures
        forall|k: int|
            0 <= k < terms_from(s, i).len() ==> is_normalized_piece(#[trigger] terms_from(s, i)[k]),
    decreases s.len() - i,
{
    if 0 <= i < s.len() {
        if is_space(s[i]) {
            lemma_terms_from_bounded(s, i + 1);
            assert forall|k: int| 0 <= k < terms_from(s, i).len() implies is_normalized_piece(#[trigger] terms_from(s, i)[k]) by {
                assert(terms_from(s, i)[k] == terms_from(s, i + 1)[k]);
            }
        } else {
            let j = run_end(s, i + 1);
            lemma_run_end_bounds(s, i + 1);
            let head = chunk_terms(s.subrange(i, j));
            lemma_chunk_terms(s.subrange(i, j));
            lemma_terms_from_bounded(s, j);
            assert forall|k: int| 0 <= k < terms_from(s, i).len() implies is_normalized_piece(#[trigger] terms_from(s, i)[k]) by {
                if k < head.len() {
                    assert(terms_from(s, i)[k] == head[k]);
                } else {
                    assert(terms_from(s, i)[k] == terms_from(s, j)[k - head.len()]);
                }
            }
        }
    }
}

/// Every term is the lowercase form of a nonempty piece of the text that
/// begins and ends with an alphanumeric character.
pub proof fn lemma_terms_alnum_bounded(s: Seq<char>)
    ensures
        forall|k: int|
            0 <= k < terms(s).len() ==> is_normalized_piece(#[trigger] terms(s)[k]),
{
    lemma_terms_from_bounded(s, 0);
    assert forall|k: int| 0 <= k < terms(s).len() implies is_normalized_piece(#[trigger] terms(s)[k]) by {
        assert(terms(s)[k] == terms_from(s, 0)[k]);
    }
}

/// The terms of a text, in order of appearance.
pub open spec fn terms(s: Seq<char>) -> Seq<Seq<char>> {
    terms_from(s, 0)
}

/// The characters of `cs[a..b]`, with the bounds moved inwards past
/// non-alphanumeric characters.
fn trim_bounds(cs: &Vec<char>, a: usize, b: usize) -> (r: (usize, usize))
    requires
        a <= b <= cs.len(),
    ensures
        a <= r.0 <= r.1 <= b,
        cs@.subrange(r.0 as int, r.1 as int) == trim(cs@.subrange(a as int, b as int)),
{
    let mut lo = a;
    while lo < b && !char_is_alnum(cs[lo])
        invariant
            a <= lo <= b <= cs.len(),
            trim_start(cs@.subrange(a as int, b as int)) == trim_start(
                cs@.subrange(lo as int, b as int),
            ),
        decreases b - lo,
    {
        assert(cs@.subrange(lo as int, b as int).drop_first() =~= cs@.subrange(
            lo + 1,
            b as int,
        ));
        lo = lo + 1;
    }
    assert(trim_start(cs@.subrange(lo as int, b as int)) == cs@.subrange(lo as int, b as int));
    let mut hi = b;
    while hi > lo && !char_is_alnum(cs[hi - 1])
        invariant
            a <= lo <= hi <= b <= cs.len(),
            trim_end(cs@.subrange(lo as int, b as int)) == trim_end(
                cs@.subrange(lo as int, hi as int),
            ),
        decreases hi - lo,
    {
        assert(cs@.subrange(lo as int, hi as int).drop_last() =~= cs@.subrange(
            lo as int,
            hi - 1,
        ));
        hi = hi - 1;
    }
    (lo, hi)
}

/// The term for `cs[a..b]`: its characters, lowercased.
fn normalized(cs: &Vec<char>, a: usize, b: usize) -> (r: Vec<char>)
    requires
        a <= b <= cs.len(),
    ensures
        r@ == lower_of(cs@.subrange(a as int, b as int)),
{
    let mut plain: Vec<char> = Vec::new();
    let mut k: usize = a;
    while k < b
        invariant
            a <= k <= b <= cs.len(),
            plain@ == cs@.subrange(a as int, k as int),
        decreases b - k,
    {
        plain.push(cs[k]);
        k = k + 1;
        assert(plain@ =~= cs@.subrange(a as int, k as int));
    }
    let s = string_of(&plain);
    let low = lowercase(s.as_str());
    chars_of(low.as_str())
}

/// Splits text on whitespace and normalizes each chunk into a term.
pub struct Tokenizer;

impl Default for Tokenizer {
    fn default() -> (r: Self) {
        Tokenizer::new()
    }
}

impl Tokenizer {
    /// The term of the chunk `cs[a..b]`: trimmed of non-alphanumeric
    /// characters at both ends, none if nothing is left, lowercased otherwise.
    fn normalize_token(cs: &Vec<char>, a: usize, b: usize) -> (r: Option<Vec<char>>)
        requires
            a <= b <= cs.len(),
        ensures
            match r {
                Some(t) => chunk_terms(cs@.subrange(a as int, b as int)) == seq![t@],
                None => chunk_terms(cs@.subrange(a as int, b as int)) == Seq::<Seq<char>>::empty(),
            },
    {
        let (lo, hi) = trim_bounds(cs, a, b);
        if lo < hi {
            Some(normalized(cs, lo, hi))
        } else {
            assert(chunk_terms(cs@.subrange(a as int, b as int)) =~= seq![]);
            None
        }
    }

    pub fn new() -> (r: Tokenizer) {
        Tokenizer
    }

    /// The terms of `cs`, each as its characters.
    pub fn terms_of_chars(&self, cs: &Vec<char>) -> (r: Vec<Vec<char>>)
        ensures
            r.deep_view() == terms(cs@),
    {
        let ghost s = cs@;
        let n = cs.len();
        let mut out: Vec<Vec<char>> = Vec::new();
        let mut i: usize = 0;
        while i < n
            invariant
                n == cs.len(),
                s == cs@,
                i <= n,
                terms(s) == out.deep_view() + terms_from(s, i as int),
            decreases n - i,
        {
            if char_is_space(cs[i]) {
                i = i + 1;
            } else {
                let mut j = i + 1;
                while j < n && !char_is_space(cs[j])
                    invariant
                        n == cs.len(),
                        s == cs@,
                        i < j <= n,
                        run_end(s, i as int + 1) == run_end(s, j as int),
                    decreases n - j,
                {
                    j = j + 1;
                }
                assert(run_end(s, j as int) == j);
                let ghost before = out.deep_view();
                match Self::normalize_token(cs, i, j) {
                    Some(t) => {
                        let ghost tv = t.deep_view();
                        assert(tv =~= t@);
                        out.push(t);
                        assert(out.deep_view() =~= before + chunk_terms(s.subrange(i as int, j as int)));
                    },
                    None => {},
                }
                assert(terms(s) == out.deep_view() + terms_from(s, j as int));
                i = j;
            }
        }
        out
    }

    /// The terms of `text`, each as its characters.
    pub fn terms_of(&self, text: &str) -> (r: Vec<Vec<char>>)
        ensures
            r.deep_view() == terms(text@),
    {
        let cs = chars_of(text);
        self.terms_of_chars(&cs)
    }

    /// Tokenizes a text into its sequence of normalized terms: it is split on
    /// whitespace, each chunk is trimmed of non-alphanumeric characters at both
    /// ends, empty chunks are dropped, and the rest are lowercased.
    pub fn tokenize(&self, text: &str) -> (r: Vec<String>)
        ensures
            r@.len() == terms(text@).len(),
            forall|i: int| 0 <= i < r@.len() ==> #[trigger] r@[i]@ == terms(text@)[i],
    {
        let ts = self.terms_of(text);
        let mut out: Vec<String> = Vec::new();
        let mut i: usize = 0;
        while i < ts.len()
            invariant
                i <= ts.len(),
                ts.deep_view() == terms(text@),
                out@.len() == i,
                forall|k: int| 0 <= k < i ==> #[trigger] out@[k]@ == ts.deep_view()[k],
            decreases ts.len() - i,
        {
            let s = string_of(&ts[i]);
            out.push(s);
            i = i + 1;
        }
        out
    }
}

} // verus!
