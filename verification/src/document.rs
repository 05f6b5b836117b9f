//! Documents: a stable key, a body, and typed fields.
use vstd::prelude::*;

use crate::keyed::{find_key, is_ordered, keys_of, lemma_upsert, lookup, place_of, KeyedEntry};
use crate::schema::{opt_value, FieldValue, FieldValueView, IntoFieldValue};
use crate::text::{blank, chars_of, is_blank, IntoText};

verus! {

/// A document identified by a stable application-provided key.
#[derive(Debug, PartialEq, Eq)]
pub struct Document {
    id: String,
    text: String,
    fields: Vec<(String, FieldValue)>,
}

/// The content of a document: key, body, and fields in name order.
pub struct DocumentView {
    pub id: Seq<char>,
    pub text: Seq<char>,
    pub fields: Seq<(Seq<char>, FieldValueView)>,
}

/// The content of a sequence of named values.
pub open spec fn pairs_view(s: Seq<(String, FieldValue)>) -> Seq<(Seq<char>, FieldValueView)> {
    s.map_values(|p: (String, FieldValue)| (p.0@, p.1@))
}

impl View for Document {
    type V = DocumentView;

    closed spec fn view(&self) -> DocumentView {
        DocumentView { id: self.id@, text: self.text@, fields: pairs_view(self.fields@) }
    }
}

/// A well-formed document: its key is not blank and its fields are in
/// strictly increasing name order.
pub open spec fn document_ok(d: DocumentView) -> bool {
    !is_blank(d.id) && is_ordered(d.fields)
}

impl Document {
    pub open spec fn wf(&self) -> bool {
        document_ok(self@)
    }

    /// Rejects blank keys and preserves the supplied key and text unchanged.
    pub fn new<I: IntoText, T: IntoText>(id: I, text: T) -> (r: Result<Self, DocumentError>)
        ensures
            match r {
                Ok(d) => {
                    &&& !is_blank(id.text_view())
                    &&& d@ == (DocumentView {
                        id: id.text_view(),
                        text: text.text_view(),
                        fields: Seq::empty(),
                    })
                    &&& d.wf()
                },
                Err(e) => is_blank(id.text_view()) && e == DocumentError::EmptyId,
            },
    {
        let id = id.into_text();
        if blank(id.as_str()) {
            return Err(DocumentError::EmptyId);
        }
        let d = Document { id, text: text.into_text(), fields: Vec::new() };
        proof {
            assert(pairs_view(d.fields@) =~= Seq::<(Seq<char>, FieldValueView)>::empty());
            assert(keys_of(d@.fields) =~= Seq::<Seq<char>>::empty());
        }
        Ok(d)
    }

    /// Attaches a typed field value, replacing any existing value for the name.
    pub fn with_field<N: IntoText, V: IntoFieldValue>(self, name: N, value: V) -> (r: Self)
        requires
            self.wf(),
        ensures
            r.wf(),
            r@.id == self@.id,
            r@.text == self@.text,
            forall|m: Seq<char>| #[trigger]
                lookup(r@.fields, m) == if m == name.text_view() {
                    Some(value.value_view())
                } else {
                    lookup(self@.fields, m)
                },
    {
        let mut d = self;
        let name = name.into_text();
        let value = value.into_field_value();
        let k = chars_of(name.as_str());
        let ghost s = d@.fields;
        let (p, found) = place_of::<_, FieldValueView>(d.fields.as_slice(), &k, Ghost(s));
        let ghost entry = (name@, value@);
        if found {
            d.fields.remove(p);
            d.fields.insert(p, (name, value));
            proof {
                assert(pairs_view(d.fields@) =~= s.update(p as int, entry));
                lemma_upsert(s, p as int, name@, value@, pairs_view(d.fields@));
            }
        } else {
            d.fields.insert(p, (name, value));
            proof {
                assert(pairs_view(d.fields@) =~= s.insert(p as int, entry));
                lemma_upsert(s, p as int, name@, value@, pairs_view(d.fields@));
            }
        }
        d
    }

    pub fn id(&self) -> (r: &str)
        ensures
            r@ == self@.id,
    {
        self.id.as_str()
    }

    pub fn text(&self) -> (r: &str)
        ensures
            r@ == self@.text,
    {
        self.text.as_str()
    }

    /// Returns the value stored under `name`, if any.
    pub fn field(&self, name: &str) -> (r: Option<&FieldValue>)
        ensures
            opt_value(r) == lookup(self@.fields, name@),
    {
        let k = chars_of(name);
        match find_key::<_, FieldValueView>(self.fields.as_slice(), &k, Ghost(self@.fields)) {
            Some(i) => Some(&self.fields[i].1),
            None => None,
        }
    }

    /// All fields in name order.
    pub fn fields(&self) -> (r: &[(String, FieldValue)])
        ensures
            pairs_view(r@) == self@.fields,
    {
        self.fields.as_slice()
    }
}

impl KeyedEntry for (String, FieldValue) {
    open spec fn entry_key(&self) -> Seq<char> {
        self.0@
    }

    fn key_text(&self) -> (r: &str) {
        self.0.as_str()
    }
}

impl KeyedEntry for Document {
    open spec fn entry_key(&self) -> Seq<char> {
        self@.id
    }

    fn key_text(&self) -> (r: &str) {
        self.id.as_str()
    }
}

impl Clone for Document {
    /// A copy of the document: same key, body and fields.
    fn clone(&self) -> (r: Self)
        ensures
            r@ == self@,
    {
        let mut fields: Vec<(String, FieldValue)> = Vec::new();
        let mut i: usize = 0;
        while i < self.fields.len()
            invariant
                i <= self.fields@.len(),
                pairs_view(fields@) == pairs_view(self.fields@).take(i as int),
            decreases self.fields@.len() - i,
        {
            let name = self.fields[i].0.clone();
            let value = self.fields[i].1.clone();
            let ghost before = fields@;
            fields.push((name, value));
            proof {
                assert(pairs_view(fields@) =~= pairs_view(before).push(
                    pairs_view(self.fields@)[i as int],
                ));
                assert(pairs_view(self.fields@).take(i + 1) =~= pairs_view(self.fields@).take(
                    i as int,
                ).push(pairs_view(self.fields@)[i as int]));
            }
            i = i + 1;
        }
        proof {
            assert(pairs_view(self.fields@).take(i as int) =~= pairs_view(self.fields@));
        }
        Document { id: self.id.clone(), text: self.text.clone(), fields }
    }
}

#[derive(Clone, Copy, Debug, PartialEq, Eq, Structural)]
pub enum DocumentError {
    EmptyId,
}

impl DocumentError {
    /// A sentence describing the error.
    pub fn message(&self) -> (r: String)
        ensures
            r@ == "document key must not be blank"@,
    {
        "document key must not be blank".into_text()
    }
}

} // verus!
