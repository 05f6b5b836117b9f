//! The in-memory collection: storage by key, replacement, removal, and the
//! searches over stored documents.
use vstd::prelude::*;

use crate::document::{document_ok, Document, DocumentView};
use crate::filter::{
    check_filters, filter_problem, filters_view, matches_filters, satisfies, FieldFilter,
    FilterError, FilterView,
};
use crate::keyed::{
    as_map, find_key, is_ordered, keys_of, lemma_as_map_update, lemma_lookup_absent,
    lemma_lookup_skip, lemma_remove, lemma_upsert, lookup, place_of, KeyedEntry,
};
use crate::schema::{schema_violation, Schema, SchemaError};
use crate::text::{
    chars_of, has_all, has_terms, lemma_sorted_distinct, lemma_text_lt_asymmetric,
    lemma_text_lt_irreflexive, lemma_text_lt_total, lemma_text_lt_transitive, terms,
    terms_of, text_lt,
};

verus! {

broadcast use vstd::seq_lib::group_seq_properties;

/// Documents keyed by their keys.
pub open spec fn keyed_docs(entries: Seq<DocumentView>) -> Seq<(Seq<char>, DocumentView)> {
    entries.map_values(|d: DocumentView| (d.id, d))
}

/// The stored document with key `k`, if any.
pub open spec fn find(entries: Seq<DocumentView>, k: Seq<char>) -> Option<DocumentView> {
    lookup(keyed_docs(entries), k)
}

/// The stored documents as a map from key to document.
pub open spec fn index_map(entries: Seq<DocumentView>) -> Map<Seq<char>, DocumentView> {
    as_map(keyed_docs(entries))
}

/// The content of an optional document.
pub open spec fn opt_doc(d: Option<Document>) -> Option<DocumentView> {
    match d {
        Some(x) => Some(x@),
        None => None,
    }
}

/// The content of an optional borrowed document.
pub open spec fn opt_doc_ref(d: Option<&Document>) -> Option<DocumentView> {
    match d {
        Some(x) => Some(x@),
        None => None,
    }
}

/// The content of a list of borrowed documents.
pub open spec fn hits_view(hits: Seq<&Document>) -> Seq<DocumentView> {
    hits.map_values(|d: &Document| d@)
}

/// The stored documents, in key order, whose terms include every wanted
/// term and which satisfy every filter.
pub open spec fn selected(
    entries: Seq<DocumentView>,
    wanted: Seq<Seq<char>>,
    fs: Seq<FilterView>,
) -> Seq<DocumentView> {
    entries.filter(|d: DocumentView| has_terms(d.text, wanted) && satisfies(d, fs))
}

/// What a query finds: nothing for a query without terms, else the stored
/// documents, in key order, whose terms include every query term.
pub open spec fn search_results(entries: Seq<DocumentView>, query: Seq<char>) -> Seq<DocumentView> {
    if terms(query).len() == 0 {
        Seq::empty()
    } else {
        selected(entries, terms(query), Seq::empty())
    }
}

/// What a query with filters finds: nothing for a query without terms,
/// else the stored documents, in key order, that hold every query term and
/// satisfy every filter.
pub open spec fn filtered_search_results(
    entries: Seq<DocumentView>,
    query: Seq<char>,
    fs: Seq<FilterView>,
) -> Seq<DocumentView> {
    if terms(query).len() == 0 {
        Seq::empty()
    } else {
        selected(entries, terms(query), fs)
    }
}

/// The terms that keywords add to a candidate selection: none without
/// keywords, else the terms of the keywords (a text without terms adds none).
pub open spec fn keyword_terms(keywords: Option<Seq<char>>) -> Seq<Seq<char>> {
    match keywords {
        None => Seq::empty(),
        Some(q) => terms(q),
    }
}

/// The content of optional text.
pub open spec fn opt_text(t: Option<&str>) -> Option<Seq<char>> {
    match t {
        Some(s) => Some(s@),
        None => None,
    }
}

/// The documents that facet counting and sorted retrieval work on: those,
/// in key order, that hold every keyword term and satisfy every filter.
pub open spec fn candidates_of(
    entries: Seq<DocumentView>,
    keywords: Option<Seq<char>>,
    fs: Seq<FilterView>,
) -> Seq<DocumentView> {
    selected(entries, keyword_terms(keywords), fs)
}

/// Filtering keeps only documents of the sequence.
pub proof fn lemma_filter_members(s: Seq<DocumentView>, pred: spec_fn(DocumentView) -> bool)
    ensures
        forall|i: int| 0 <= i < s.filter(pred).len() ==> s.contains(#[trigger] s.filter(pred)[i]),
    decreases s.len(),
{
    reveal_with_fuel(Seq::filter, 1);
    if s.len() > 0 {
        let t = s.drop_last();
        lemma_filter_members(t, pred);
        let f = t.filter(pred);
        assert forall|i: int| 0 <= i < f.len() implies s.contains(#[trigger] f[i]) by {
            assert(t.contains(f[i]));
            let k = choose|k: int| 0 <= k < t.len() && t[k] == f[i];
            assert(s[k] == f[i]);
        }
        if pred(s.last()) {
            let g = f.push(s.last());
            assert forall|i: int| 0 <= i < g.len() implies s.contains(#[trigger] g[i]) by {
                if i == g.len() - 1 {
                    assert(s[s.len() - 1] == g[i]);
                } else {
                    assert(g[i] == f[i]);
                }
            }
        }
    }
}

/// Filtering keeps a key-ordered sequence key-ordered, and keeps only
/// documents of the sequence.
pub proof fn lemma_filter_ordered(s: Seq<DocumentView>, pred: spec_fn(DocumentView) -> bool)
    requires
        is_ordered(keyed_docs(s)),
    ensures
        is_ordered(keyed_docs(s.filter(pred))),
        forall|i: int| 0 <= i < s.filter(pred).len() ==> s.contains(#[trigger] s.filter(pred)[i]),
    decreases s.len(),
{
    reveal_with_fuel(Seq::filter, 1);
    if s.len() > 0 {
        let t = s.drop_last();
        let ks = keys_of(keyed_docs(s));
        assert(keys_of(keyed_docs(t)) =~= ks.drop_last());
        lemma_filter_ordered(t, pred);
        let f = t.filter(pred);
        assert forall|i: int| 0 <= i < f.len() implies s.contains(#[trigger] f[i]) by {
            assert(t.contains(f[i]));
            let k = choose|k: int| 0 <= k < t.len() && t[k] == f[i];
            assert(s[k] == f[i]);
        }
        if pred(s.last()) {
            let g = f.push(s.last());
            assert(s.filter(pred) == g);
            let gk = keys_of(keyed_docs(g));
            let fk = keys_of(keyed_docs(f));
            assert forall|i: int, j: int| 0 <= i < j < gk.len() implies text_lt(
                #[trigger] gk[i],
                #[trigger] gk[j],
            ) by {
                if j == g.len() - 1 {
                    assert(t.contains(f[i]));
                    let k = choose|k: int| 0 <= k < t.len() && t[k] == f[i];
                    assert(ks[k] == t[k].id);
                    assert(ks[s.len() - 1] == s.last().id);
                    assert(gk[i] == f[i].id);
                } else {
                    assert(gk[i] == fk[i]);
                    assert(gk[j] == fk[j]);
                }
            }
            assert forall|i: int| 0 <= i < g.len() implies s.contains(#[trigger] g[i]) by {
                if i == g.len() - 1 {
                    assert(s[s.len() - 1] == g[i]);
                } else {
                    assert(g[i] == f[i]);
                }
            }
        }
    }
}

/// An in-memory collection of documents, kept in key order.
#[derive(Debug)]
pub struct SearchIndex {
    documents: Vec<Document>,
}

impl View for SearchIndex {
    type V = Seq<DocumentView>;

    /// The stored documents in key order.
    closed spec fn view(&self) -> Seq<DocumentView> {
        self.documents@.map_values(|d: Document| d@)
    }
}

impl SearchIndex {
    /// Keys strictly increase, and every stored document is well formed.
    pub open spec fn wf(&self) -> bool {
        &&& is_ordered(keyed_docs(self@))
        &&& forall|i: int| 0 <= i < self@.len() ==> document_ok(#[trigger] self@[i])
    }

    pub fn new() -> (r: Self)
        ensures
            r@ == Seq::<DocumentView>::empty(),
            r.wf(),
    {
        let r = SearchIndex { documents: Vec::new() };
        proof {
            assert(r@ =~= Seq::<DocumentView>::empty());
            assert(keys_of(keyed_docs(r@)) =~= Seq::<Seq<char>>::empty());
        }
        r
    }

    pub fn len(&self) -> (r: usize)
        ensures
            r == self@.len(),
    {
        self.documents.len()
    }

    pub fn is_empty(&self) -> (r: bool)
        ensures
            r == (self@.len() == 0),
    {
        self.documents.len() == 0
    }

    /// Where key `k` belongs among the stored documents, and whether the
    /// document there has key `k`.
    fn position(&self, k: &Vec<char>) -> (r: (usize, bool))
        ensures
            r.0 <= self@.len(),
            forall|j: int| 0 <= j < r.0 ==> text_lt(#[trigger] keyed_docs(self@)[j].0, k@),
            r.0 < self@.len() ==> !text_lt(keyed_docs(self@)[r.0 as int].0, k@),
            r.1 == (r.0 < self@.len() && keyed_docs(self@)[r.0 as int].0 == k@),
    {
        proof {
            self.lemma_keys_are_entry_keys();
        }
        place_of::<_, DocumentView>(self.documents.as_slice(), k, Ghost(keyed_docs(self@)))
    }

    /// The index of the stored document with key `k`, if any.
    fn locate(&self, k: &Vec<char>) -> (r: Option<usize>)
        ensures
            match r {
                Some(i) => i < self@.len() && self@[i as int].id == k@ && find(self@, k@) == Some(
                    self@[i as int],
                ),
                None => find(self@, k@) is None,
            },
    {
        proof {
            self.lemma_keys_are_entry_keys();
        }
        find_key::<_, DocumentView>(self.documents.as_slice(), k, Ghost(keyed_docs(self@)))
    }

    proof fn lemma_keys_are_entry_keys(&self)
        ensures
            keyed_docs(self@).len() == self.documents@.len(),
            forall|j: int|
                0 <= j < keyed_docs(self@).len() ==> #[trigger] keyed_docs(self@)[j].0
                    == self.documents@[j].entry_key(),
    {
        assert forall|j: int| 0 <= j < keyed_docs(self@).len() implies #[trigger] keyed_docs(
            self@,
        )[j].0 == self.documents@[j].entry_key() by {
            assert(self@[j] == self.documents@[j]@);
        }
    }

    /// Replaces an existing key, returning its previous document if present.
    pub fn insert(&mut self, document: Document) -> (r: Option<Document>)
        requires
            old(self).wf(),
            document.wf(),
        ensures
            final(self).wf(),
            index_map(final(self)@) == index_map(old(self)@).insert(document@.id, document@),
            forall|m: Seq<char>| #[trigger]
                find(final(self)@, m) == if m == document@.id {
                    Some(document@)
                } else {
                    find(old(self)@, m)
                },
            opt_doc(r) == find(old(self)@, document@.id),
    {
        let k = chars_of(document.id());
        let ghost s = keyed_docs(self@);
        let ghost dv = document@;
        let ghost old_entries = self@;
        let (p, found) = self.position(&k);
        let mut replaced: Option<Document> = None;
        if found {
            proof {
                lemma_lookup_skip(s, dv.id, p as int);
                assert(s.skip(p as int)[0] == s[p as int]);
            }
            let old_doc = self.documents.remove(p);
            self.documents.insert(p, document);
            replaced = Some(old_doc);
            proof {
                assert(keyed_docs(self@) =~= s.update(p as int, (dv.id, dv)));
                lemma_upsert(s, p as int, dv.id, dv, keyed_docs(self@));
            }
        } else {
            proof {
                if p < old_entries.len() {
                    assert(s[p as int].0 == old_entries[p as int].id);
                }
                assert forall|j: int| 0 <= j < s.len() implies s[j].0 != dv.id by {
                    if j < p {
                        lemma_text_lt_asymmetric(s[j].0, dv.id);
                    } else if j > p {
                        lemma_sorted_distinct(keys_of(s), j, p as int);
                        lemma_text_lt_total(s[p as int].0, dv.id);
                        lemma_text_lt_transitive(dv.id, s[p as int].0, s[j].0);
                        lemma_text_lt_irreflexive(dv.id);
                        assert(keys_of(s)[j] == s[j].0);
                        assert(keys_of(s)[p as int] == s[p as int].0);
                    }
                }
                lemma_lookup_absent(s, dv.id);
            }
            self.documents.insert(p, document);
            proof {
                assert(keyed_docs(self@) =~= s.insert(p as int, (dv.id, dv)));
                lemma_upsert(s, p as int, dv.id, dv, keyed_docs(self@));
            }
        }
        proof {
            lemma_as_map_update(s, keyed_docs(self@), dv.id, Some(dv));
            assert forall|i: int| 0 <= i < self@.len() implies document_ok(#[trigger] self@[i]) by {
                if i == p {
                    assert(self@[i] == dv);
                } else if i < p {
                    assert(self@[i] == old_entries[i]);
                } else if self@.len() == old_entries.len() {
                    assert(self@[i] == old_entries[i]);
                } else {
                    assert(self@[i] == old_entries[i - 1]);
                }
            }
        }
        replaced
    }

    /// Validates the document against the schema, then inserts it.
    ///
    /// Validation runs completely before the index is touched: on failure
    /// the error is returned and the index is left exactly as it was.
    pub fn insert_with_schema(&mut self, document: Document, schema: &Schema) -> (r: Result<
        Option<Document>,
        SchemaError,
    >)
        requires
            old(self).wf(),
            document.wf(),
        ensures
            final(self).wf(),
            match r {
                Err(e) => {
                    &&& schema_violation(schema@, document@) == Some(e@)
                    &&& final(self)@ == old(self)@
                },
                Ok(prev) => {
                    &&& schema_violation(schema@, document@) is None
                    &&& index_map(final(self)@) == index_map(old(self)@).insert(
                        document@.id,
                        document@,
                    )
                    &&& opt_doc(prev) == find(old(self)@, document@.id)
                },
            },
    {
        match schema.validate(&document) {
            Err(e) => Err(e),
            Ok(_) => Ok(self.insert(document)),
        }
    }

    pub fn get(&self, id: &str) -> (r: Option<&Document>)
        ensures
            opt_doc_ref(r) == find(self@, id@),
    {
        let k = chars_of(id);
        match self.locate(&k) {
            Some(i) => Some(&self.documents[i]),
            None => None,
        }
    }

    pub fn remove(&mut self, id: &str) -> (r: Option<Document>)
        requires
            old(self).wf(),
        ensures
            final(self).wf(),
            index_map(final(self)@) == index_map(old(self)@).remove(id@),
            forall|m: Seq<char>| #[trigger]
                find(final(self)@, m) == if m == id@ {
                    None
                } else {
                    find(old(self)@, m)
                },
            opt_doc(r) == find(old(self)@, id@),
    {
        let k = chars_of(id);
        let ghost s = keyed_docs(self@);
        let ghost old_entries = self@;
        match self.locate(&k) {
            Some(i) => {
                proof {
                    assert(s[i as int].0 == self@[i as int].id);
                }
                let d = self.documents.remove(i);
                proof {
                    assert(keyed_docs(self@) =~= s.remove(i as int));
                    lemma_remove(s, i as int);
                    lemma_as_map_update(s, keyed_docs(self@), k@, None);
                    assert forall|j: int| 0 <= j < self@.len() implies document_ok(
                        #[trigger] self@[j],
                    ) by {
                        if j < i {
                            assert(self@[j] == old_entries[j]);
                        } else {
                            assert(self@[j] == old_entries[j + 1]);
                        }
                    }
                }
                Some(d)
            },
            None => {
                proof {
                    lemma_as_map_update(s, s, k@, None);
                }
                None
            },
        }
    }

    /// The stored documents, in key order, whose terms include every term of
    /// `wanted` and which satisfy every filter.
    fn select(&self, wanted: &Vec<Vec<char>>, filters: &[FieldFilter]) -> (r: Vec<&Document>)
        ensures
            hits_view(r@) == selected(
                self@,
                wanted@.map_values(|w: Vec<char>| w@),
                filters_view(filters@),
            ),
    {
        let ghost wv = wanted@.map_values(|w: Vec<char>| w@);
        let ghost fv = filters_view(filters@);
        let ghost pred = |d: DocumentView| has_terms(d.text, wv) && satisfies(d, fv);
        let mut r: Vec<&Document> = Vec::new();
        let mut i: usize = 0;
        proof {
            assert(self@.take(0) =~= Seq::<DocumentView>::empty());
            assert(hits_view(r@) =~= Seq::<DocumentView>::empty());
            reveal_with_fuel(Seq::filter, 1);
        }
        while i < self.documents.len()
            invariant
                i <= self.documents@.len(),
                self@.len() == self.documents@.len(),
                wv == wanted@.map_values(|w: Vec<char>| w@),
                fv == filters_view(filters@),
                pred == (|d: DocumentView| has_terms(d.text, wv) && satisfies(d, fv)),
                hits_view(r@) == self@.take(i as int).filter(pred),
            decreases self.documents@.len() - i,
        {
            let doc = &self.documents[i];
            let present = terms_of(doc.text());
            let all = has_all(&present, wanted);
            let fit = matches_filters(doc, filters);
            let keep = all && fit;
            let ghost before = r@;
            proof {
                assert(self@[i as int] == doc@);
                assert(self@.take(i + 1).drop_last() =~= self@.take(i as int));
                assert(self@.take(i + 1).last() == doc@);
                reveal_with_fuel(Seq::filter, 1);
                if all {
                    assert forall|j: int| 0 <= j < wv.len() implies terms(doc@.text).contains(
                        #[trigger] wv[j],
                    ) by {
                        assert(wv[j] == wanted@[j]@);
                    }
                } else {
                    let j = choose|j: int|
                        0 <= j < wanted@.len() && !present@.map_values(|w: Vec<char>| w@).contains(
                            #[trigger] wanted@[j]@,
                        );
                    assert(wv[j] == wanted@[j]@);
                }
            }
            if keep {
                r.push(doc);
                proof {
                    assert(hits_view(r@) =~= hits_view(before).push(doc@));
                }
            }
            i = i + 1;
        }
        proof {
            assert(self@.take(i as int) =~= self@);
        }
        r
    }

    /// The candidates for facet counting and sorted retrieval: stored
    /// documents, in key order, holding every keyword term (when keywords
    /// are given) and satisfying every filter.
    pub(crate) fn candidates(&self, keywords: Option<&str>, filters: &[FieldFilter]) -> (r: Vec<
        &Document,
    >)
        ensures
            hits_view(r@) == candidates_of(self@, opt_text(keywords), filters_view(filters@)),
    {
        let wanted = match keywords {
            Some(q) => terms_of(q),
            None => Vec::new(),
        };
        proof {
            if keywords is None {
                assert(wanted@.map_values(|w: Vec<char>| w@) =~= Seq::<Seq<char>>::empty());
            }
        }
        self.select(&wanted, filters)
    }

    /// Matches all query terms, returning unique documents in key order.
    /// An empty or whitespace-only query returns no documents.
    pub fn search(&self, query: &str) -> (r: Vec<&Document>)
        ensures
            hits_view(r@) == search_results(self@, query@),
    {
        let wanted = terms_of(query);
        if wanted.len() == 0 {
            return Vec::new();
        }
        let none: Vec<FieldFilter> = Vec::new();
        proof {
            assert(filters_view(none@) =~= Seq::<FilterView>::empty());
        }
        self.select(&wanted, none.as_slice())
    }

    /// The stored documents, in key order, that satisfy every filter, after
    /// checking the filters against the schema.
    pub fn filter_with_fields(&self, filters: &[FieldFilter], schema: &Schema) -> (r: Result<
        Vec<&Document>,
        FilterError,
    >)
        ensures
            match r {
                Err(e) => filter_problem(schema@, filters_view(filters@)) == Some(e@),
                Ok(hits) => {
                    &&& filter_problem(schema@, filters_view(filters@)) is None
                    &&& hits_view(hits@) == selected(
                        self@,
                        Seq::empty(),
                        filters_view(filters@),
                    )
                },
            },
    {
        check_filters(filters, schema)?;
        let wanted: Vec<Vec<char>> = Vec::new();
        proof {
            assert(wanted@.map_values(|w: Vec<char>| w@) =~= Seq::<Seq<char>>::empty());
        }
        Ok(self.select(&wanted, filters))
    }

    /// Body keywords AND field filters: the stored documents, in key order,
    /// holding every query term and satisfying every filter. An empty query
    /// finds nothing.
    pub fn search_with_fields(&self, query: &str, filters: &[FieldFilter], schema: &Schema) -> (r:
        Result<Vec<&Document>, FilterError>)
        ensures
            match r {
                Err(e) => filter_problem(schema@, filters_view(filters@)) == Some(e@),
                Ok(hits) => {
                    &&& filter_problem(schema@, filters_view(filters@)) is None
                    &&& hits_view(hits@) == filtered_search_results(
                        self@,
                        query@,
                        filters_view(filters@),
                    )
                },
            },
    {
        check_filters(filters, schema)?;
        let wanted = terms_of(query);
        if wanted.len() == 0 {
            return Ok(Vec::new());
        }
        Ok(self.select(&wanted, filters))
    }
}

impl Default for SearchIndex {
    fn default() -> (r: Self)
        ensures
            r@ == Seq::<DocumentView>::empty(),
            r.wf(),
    {
        SearchIndex::new()
    }
}

} // verus!
