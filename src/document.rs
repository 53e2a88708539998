//! Documents: field name to text value, with the id that a build assigns.
use crate::tokenizer::{terms, Tokenizer};
use vstd::prelude::*;

verus! {

/// The identifier a build gives a document: its position in staging order.
pub type DocId = u64;

/// A document as plain values: its id and its fields, as (name, value) pairs.
pub ghost struct DocumentView {
    pub id: DocId,
    pub fields: Seq<(Seq<char>, Seq<char>)>,
}

/// The field map of a list of fields with distinct names.
pub open spec fn field_map(fields: Seq<(Seq<char>, Seq<char>)>) -> Map<Seq<char>, Seq<char>> {
    Map::new(
        |k: Seq<char>| exists|i: int| 0 <= i < fields.len() && fields[i].0 == k,
        |k: Seq<char>| fields[choose|i: int| 0 <= i < fields.len() && fields[i].0 == k].1,
    )
}

/// No two fields share a name.
pub open spec fn distinct_names(fields: Seq<(Seq<char>, Seq<char>)>) -> bool {
    forall|i: int, j: int|
        0 <= i < fields.len() && 0 <= j < fields.len() && i != j ==> #[trigger] fields[i].0
            != #[trigger] fields[j].0
}

/// The terms of a document: those of each field value, field after field.
pub open spec fn field_terms(fields: Seq<(Seq<char>, Seq<char>)>) -> Seq<Seq<char>>
    decreases fields.len(),
{
    if fields.len() == 0 {
        seq![]
    } else {
        field_terms(fields.drop_last()) + terms(fields.last().1)
    }
}

/// Settings of an index: words to leave out of it, and synonyms of a term.
#[derive(Debug, PartialEq, Eq)]
pub struct IndexSettings {
    pub stop_words: Option<Vec<String>>,
    pub synonyms: Option<std::collections::HashMap<String, Vec<String>>>,
}

/// A set of named text fields. Field names are unique within a document.
#[derive(Debug, PartialEq, Eq)]
pub struct Document {
    id: DocId,
    fields: Vec<(String, String)>,
}

impl View for Document {
    type V = DocumentView;

    closed spec fn view(&self) -> DocumentView {
        DocumentView { id: self.id, fields: self.fields.deep_view() }
    }
}

proof fn lemma_field_map_at(fields: Seq<(Seq<char>, Seq<char>)>, i: int)
    requires
        distinct_names(fields),
        0 <= i < fields.len(),
    ensures
        field_map(fields).contains_key(fields[i].0),
        field_map(fields)[fields[i].0] == fields[i].1,
{
    let k = fields[i].0;
    assert(field_map(fields).contains_key(k));
    let j = choose|j: int| 0 <= j < fields.len() && fields[j].0 == k;
    assert(i == j);
}

impl Document {
    /// The fields have distinct names.
    pub open spec fn wf(&self) -> bool {
        distinct_names(self@.fields)
    }

    /// The field map of this document.
    pub open spec fn field_map(&self) -> Map<Seq<char>, Seq<char>> {
        field_map(self@.fields)
    }

    /// A document without fields.
    pub fn new() -> (r: Document)
        ensures
            r.wf(),
            r@.id == 0,
            r@.fields.len() == 0,
    {
        let r = Document { id: 0, fields: Vec::new() };
        assert(r@.fields =~= Seq::<(Seq<char>, Seq<char>)>::empty());
        r
    }

    /// The id assigned to this document; 0 until a build assigns one.
    pub fn id(&self) -> (r: DocId)
        ensures
            r == self@.id,
    {
        self.id
    }

    /// The number of fields.
    pub fn len(&self) -> (r: usize)
        ensures
            r == self@.fields.len(),
    {
        self.fields.len()
    }

    /// Sets field `name` to `value`, replacing any value it had.
    pub fn set_field(&mut self, name: String, value: String)
        requires
            old(self).wf(),
        ensures
            final(self).wf(),
            final(self)@.id == old(self)@.id,
            final(self).field_map() == old(self).field_map().insert(name@, value@),
    {
        let ghost fs = self@.fields;
        let ghost entry = (name@, value@);
        let mut i: usize = 0;
        while i < self.fields.len()
            invariant
                i <= self.fields.len(),
                fs == self@.fields,
                entry == (name@, value@),
                self@.id == old(self)@.id,
                *old(self) == *self,
                distinct_names(fs),
                forall|j: int| 0 <= j < i ==> fs[j].0 != name@,
            decreases self.fields.len() - i,
        {
            assert(fs[i as int].0 == self.fields[i as int].0@);
            if self.fields[i].0 == name {
                let pair = (name, value);
                assert(pair.deep_view() == entry);
                self.fields.set(i, pair);
                let ghost nf = self@.fields;
                assert(nf =~= fs.update(i as int, entry));
                assert(distinct_names(nf));
                assert(field_map(nf) =~= field_map(fs).insert(name@, value@)) by {
                    assert forall|k: Seq<char>| #[trigger]
                        field_map(nf).contains_key(k) == field_map(fs).insert(
                            name@,
                            value@,
                        ).contains_key(k) by {
                        if field_map(fs).contains_key(k) {
                            let j = choose|j: int| 0 <= j < fs.len() && fs[j].0 == k;
                            assert(nf[j].0 == k);
                        }
                        if field_map(nf).contains_key(k) {
                            let j = choose|j: int| 0 <= j < nf.len() && nf[j].0 == k;
                            assert(fs[j].0 == k);
                        }
                    }
                    assert forall|k: Seq<char>| #[trigger]
                        field_map(nf).contains_key(k) implies field_map(nf)[k] == field_map(
                        fs,
                    ).insert(name@, value@)[k] by {
                        let j = choose|j: int| 0 <= j < nf.len() && nf[j].0 == k;
                        lemma_field_map_at(nf, j);
                        if j != i {
                            lemma_field_map_at(fs, j);
                        }
                    }
                }
                return ;
            }
            i = i + 1;
        }
        self.fields.push((name, value));
        let ghost nf = self@.fields;
        assert(nf =~= fs.push(entry));
        assert(distinct_names(nf));
        assert(field_map(nf) =~= field_map(fs).insert(name@, value@)) by {
            assert forall|k: Seq<char>| #[trigger]
                field_map(nf).contains_key(k) == field_map(fs).insert(
                    name@,
                    value@,
                ).contains_key(k) by {
                if field_map(fs).contains_key(k) {
                    let j = choose|j: int| 0 <= j < fs.len() && fs[j].0 == k;
                    assert(nf[j].0 == k);
                }
                if k == name@ {
                    assert(nf[fs.len() as int].0 == k);
                }
                if field_map(nf).contains_key(k) {
                    let j = choose|j: int| 0 <= j < nf.len() && nf[j].0 == k;
                    if j < fs.len() {
                        assert(fs[j].0 == k);
                    }
                }
            }
            assert forall|k: Seq<char>| #[trigger]
                field_map(nf).contains_key(k) implies field_map(nf)[k] == field_map(fs).insert(
                name@,
                value@,
            )[k] by {
                let j = choose|j: int| 0 <= j < nf.len() && nf[j].0 == k;
                lemma_field_map_at(nf, j);
                if j < fs.len() {
                    lemma_field_map_at(fs, j);
                }
            }
        }
    }

    /// The value of field `name`, if the document has it.
    pub fn get(&self, name: &str) -> (r: Option<&String>)
        requires
            self.wf(),
        ensures
            match r {
                Some(v) => self.field_map().contains_key(name@) && self.field_map()[name@] == v@,
                None => !self.field_map().contains_key(name@),
            },
    {
        let key = name.to_owned();
        let mut i: usize = 0;
        while i < self.fields.len()
            invariant
                i <= self.fields.len(),
                key@ == name@,
                self.wf(),
                forall|j: int| 0 <= j < i ==> self@.fields[j].0 != name@,
            decreases self.fields.len() - i,
        {
            assert(self@.fields[i as int].0 == self.fields[i as int].0@);
            if self.fields[i].0 == key {
                proof {
                    lemma_field_map_at(self@.fields, i as int);
                }
                return Some(&self.fields[i].1);
            }
            i = i + 1;
        }
        None
    }

    /// A copy of this document.
    pub fn duplicate(&self) -> (r: Document)
        ensures
            r@ == self@,
    {
        let mut fields: Vec<(String, String)> = Vec::new();
        let mut i: usize = 0;
        while i < self.fields.len()
            invariant
                i <= self.fields.len(),
                fields.deep_view() == self@.fields.take(i as int),
            decreases self.fields.len() - i,
        {
            let name = self.fields[i].0.clone();
            let value = self.fields[i].1.clone();
            let ghost before = fields.deep_view();
            fields.push((name, value));
            assert(fields.deep_view() =~= before.push(self@.fields[i as int]));
            i = i + 1;
            assert(self@.fields.take(i as int) =~= self@.fields.take(i - 1).push(
                self@.fields[i - 1],
            ));
        }
        assert(self@.fields.take(i as int) =~= self@.fields);
        Document { id: self.id, fields }
    }

    /// This document with id `id`.
    pub(crate) fn with_id(self, id: DocId) -> (r: Document)
        ensures
            r@ == (DocumentView { id, fields: self@.fields }),
    {
        Document { id, fields: self.fields }
    }

    /// The terms of this document, field after field.
    pub fn terms(&self) -> (r: Vec<Vec<char>>)
        ensures
            r.deep_view() == field_terms(self@.fields),
    {
        let tokenizer = Tokenizer::new();
        let mut out: Vec<Vec<char>> = Vec::new();
        let mut i: usize = 0;
        while i < self.fields.len()
            invariant
                i <= self.fields.len(),
                out.deep_view() == field_terms(self@.fields.take(i as int)),
            decreases self.fields.len() - i,
        {
            let mut ts = tokenizer.terms_of(self.fields[i].1.as_str());
            let ghost before = out.deep_view();
            let ghost added = ts.deep_view();
            out.append(&mut ts);
            assert(out.deep_view() =~= before + added);
            i = i + 1;
            assert(self@.fields.take(i as int).drop_last() =~= self@.fields.take(i - 1));
        }
        assert(self@.fields.take(i as int) =~= self@.fields);
        out
    }
}

} // verus!
