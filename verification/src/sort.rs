//! Sorted retrieval: candidates ordered by one declared field's value.
use vstd::prelude::*;

use crate::document::{Document, DocumentView};
use crate::filter::{
    check_filters, filter_error_text, filter_problem, filters_view, satisfies, FieldFilter,
    FilterError, FilterErrorView,
};
use crate::index::{
    candidates_of, hits_view, keyed_docs, keyword_terms, lemma_filter_ordered, opt_text,
    SearchIndex,
};
use crate::keyed::{is_ordered, keys_of, lookup};
use crate::schema::{
    compare_values, declaration, lemma_value_lt_asymmetric, lemma_value_lt_irreflexive,
    lemma_value_lt_total, lemma_value_lt_transitive, value_lt, FieldValueView, Schema,
};
use crate::text::{
    chars_of, compare_text, has_terms, lemma_sorted_distinct, lemma_text_lt_irreflexive,
    lemma_text_lt_total, lemma_text_lt_transitive, text_lt, IntoText, Placement,
};

verus! {

broadcast use vstd::seq_lib::group_seq_properties;

/// The direction a sorted search orders field values in. Documents missing
/// the sort field always come after documents carrying a value, in either
/// direction; descending reverses only the order of the values themselves,
/// never the key order within one value.
#[derive(Clone, Copy, Debug, PartialEq, Eq, Structural)]
pub enum SortDirection {
    Ascending,
    Descending,
}

/// Why a sorted search could not be served.
#[derive(Clone, Debug, PartialEq, Eq)]
pub enum SortError {
    /// The sort field is not declared in the schema.
    UnknownField(String),
    /// One of the candidate-narrowing filters is invalid.
    Filter(FilterError),
}

/// The content of a sort error.
pub enum SortErrorView {
    UnknownField(Seq<char>),
    Filter(FilterErrorView),
}

impl View for SortError {
    type V = SortErrorView;

    open spec fn view(&self) -> SortErrorView {
        match self {
            SortError::UnknownField(n) => SortErrorView::UnknownField(n@),
            SortError::Filter(e) => SortErrorView::Filter(e@),
        }
    }
}

impl SortError {
    /// A sentence describing the error.
    pub fn message(&self) -> (r: String)
        ensures
            r@ == match self@ {
                SortErrorView::UnknownField(n) => "unknown sort field: "@ + n,
                SortErrorView::Filter(e) => "invalid sort filter: "@ + filter_error_text(e),
            },
    {
        match self {
            SortError::UnknownField(n) => {
                let mut r = "unknown sort field: ".into_text();
                r.append(n.as_str());
                r
            },
            SortError::Filter(e) => {
                let mut r = "invalid sort filter: ".into_text();
                r.append(e.message().as_str());
                r
            },
        }
    }

    /// The filter error underlying this error, if any.
    pub fn source(&self) -> (r: Option<&FilterError>)
        ensures
            match self {
                SortError::UnknownField(_) => r is None,
                SortError::Filter(e) => r == Some(e),
            },
    {
        match self {
            SortError::UnknownField(_) => None,
            SortError::Filter(e) => Some(e),
        }
    }
}

impl From<FilterError> for SortError {
    fn from(error: FilterError) -> (r: Self)
        ensures
            r == SortError::Filter(error),
    {
        SortError::Filter(error)
    }
}

impl vstd::std_specs::convert::FromSpecImpl<FilterError> for SortError {
    open spec fn obeys_from_spec() -> bool {
        true
    }

    open spec fn from_spec(v: FilterError) -> SortError {
        SortError::Filter(v)
    }
}

/// Whether `x` comes before `y` in the given direction.
pub open spec fn directed_lt(dir: SortDirection, x: FieldValueView, y: FieldValueView) -> bool {
    match dir {
        SortDirection::Ascending => value_lt(x, y),
        SortDirection::Descending => value_lt(y, x),
    }
}

/// Whether document `a` is listed before document `b` when sorting by
/// `field` in direction `dir`: documents carrying the field come first,
/// ordered by value in the direction, equal values by key; documents
/// without it follow, by key.
pub open spec fn sorts_before(
    field: Seq<char>,
    dir: SortDirection,
    a: DocumentView,
    b: DocumentView,
) -> bool {
    match lookup(a.fields, field) {
        Some(x) => match lookup(b.fields, field) {
            Some(y) => if x == y {
                text_lt(a.id, b.id)
            } else {
                directed_lt(dir, x, y)
            },
            None => true,
        },
        None => match lookup(b.fields, field) {
            Some(_) => false,
            None => text_lt(a.id, b.id),
        },
    }
}

/// `out` lists exactly the documents of `cands`, ordered by `sorts_before`.
pub open spec fn is_sorted_arrangement(
    out: Seq<DocumentView>,
    cands: Seq<DocumentView>,
    field: Seq<char>,
    dir: SortDirection,
) -> bool {
    &&& out.len() == cands.len()
    &&& forall|d: DocumentView| out.contains(d) <==> cands.contains(d)
    &&& forall|i: int, j: int|
        0 <= i < j < out.len() ==> sorts_before(field, dir, #[trigger] out[i], #[trigger] out[j])
}

proof fn lemma_directed_lt_properties(dir: SortDirection, x: FieldValueView, y: FieldValueView)
    ensures
        !directed_lt(dir, x, x),
        x != y ==> directed_lt(dir, x, y) || directed_lt(dir, y, x),
        directed_lt(dir, x, y) ==> !directed_lt(dir, y, x) && x != y,
{
    lemma_value_lt_irreflexive(x);
    lemma_value_lt_total(x, y);
    if value_lt(x, y) {
        lemma_value_lt_asymmetric(x, y);
    }
    if value_lt(y, x) {
        lemma_value_lt_asymmetric(y, x);
    }
}

pub proof fn lemma_sorts_before_irreflexive(field: Seq<char>, dir: SortDirection, a: DocumentView)
    ensures
        !sorts_before(field, dir, a, a),
{
    lemma_text_lt_irreflexive(a.id);
}

pub proof fn lemma_sorts_before_total(
    field: Seq<char>,
    dir: SortDirection,
    a: DocumentView,
    b: DocumentView,
)
    requires
        a.id != b.id,
    ensures
        sorts_before(field, dir, a, b) || sorts_before(field, dir, b, a),
{
    lemma_text_lt_total(a.id, b.id);
    if let Some(x) = lookup(a.fields, field) {
        if let Some(y) = lookup(b.fields, field) {
            lemma_directed_lt_properties(dir, x, y);
        }
    }
}

pub proof fn lemma_sorts_before_transitive(
    field: Seq<char>,
    dir: SortDirection,
    a: DocumentView,
    b: DocumentView,
    c: DocumentView,
)
    requires
        sorts_before(field, dir, a, b),
        sorts_before(field, dir, b, c),
    ensures
        sorts_before(field, dir, a, c),
{
    let fa = lookup(a.fields, field);
    let fb = lookup(b.fields, field);
    let fc = lookup(c.fields, field);
    if fa is Some && fb is Some && fc is Some {
        let x = fa->0;
        let y = fb->0;
        let z = fc->0;
        lemma_directed_lt_properties(dir, x, y);
        lemma_directed_lt_properties(dir, y, z);
        lemma_directed_lt_properties(dir, x, z);
        if x == y && y == z {
            lemma_text_lt_transitive(a.id, b.id, c.id);
        } else if x != y && y != z {
            match dir {
                SortDirection::Ascending => lemma_value_lt_transitive(x, y, z),
                SortDirection::Descending => lemma_value_lt_transitive(z, y, x),
            }
        }
    } else if fa is None && fb is None && fc is None {
        lemma_text_lt_transitive(a.id, b.id, c.id);
    }
}

/// Whether document `a` is listed before document `b`.
pub fn sorts_first(field: &str, dir: SortDirection, a: &Document, b: &Document) -> (r: bool)
    ensures
        r == sorts_before(field@, dir, a@, b@),
{
    match a.field(field) {
        Some(x) => match b.field(field) {
            Some(y) => match compare_values(x, y) {
                Placement::Same => {
                    let ak = chars_of(a.id());
                    let bk = chars_of(b.id());
                    compare_text(&ak, &bk) == Placement::Before
                },
                Placement::Before => {
                    proof {
                        lemma_value_lt_asymmetric(x@, y@);
                    }
                    match dir {
                        SortDirection::Ascending => true,
                        SortDirection::Descending => false,
                    }
                },
                Placement::After => {
                    proof {
                        lemma_value_lt_asymmetric(y@, x@);
                    }
                    match dir {
                        SortDirection::Ascending => false,
                        SortDirection::Descending => true,
                    }
                },
            },
            None => true,
        },
        None => match b.field(field) {
            Some(_) => false,
            None => {
                let ak = chars_of(a.id());
                let bk = chars_of(b.id());
                compare_text(&ak, &bk) == Placement::Before
            },
        },
    }
}

/// Orders documents with distinct keys by `sorts_before` (insertion sort:
/// each document goes before the first one it precedes).
pub(crate) fn arrange<'a>(cands: &Vec<&'a Document>, field: &str, dir: SortDirection) -> (r: Vec<
    &'a Document,
>)
    requires
        is_ordered(keyed_docs(hits_view(cands@))),
    ensures
        is_sorted_arrangement(hits_view(r@), hits_view(cands@), field@, dir),
{
    let ghost cv = hits_view(cands@);
    let mut out: Vec<&'a Document> = Vec::new();
    let mut i: usize = 0;
    proof {
        assert(hits_view(out@) =~= Seq::<DocumentView>::empty());
    }
    while i < cands.len()
        invariant
            i <= cands@.len(),
            cv == hits_view(cands@),
            is_ordered(keyed_docs(cv)),
            hits_view(out@).len() == i,
            forall|d: DocumentView| hits_view(out@).contains(d) <==> cv.take(i as int).contains(d),
            forall|a: int, b: int|
                0 <= a < b < hits_view(out@).len() ==> sorts_before(
                    field@,
                    dir,
                    #[trigger] hits_view(out@)[a],
                    #[trigger] hits_view(out@)[b],
                ),
        decreases cands@.len() - i,
    {
        let c = cands[i];
        let ghost ov = hits_view(out@);
        proof {
            assert(cv[i as int] == c@);
        }
        // Every placed document has another key than `c`.
        proof {
            assert forall|j: int| 0 <= j < ov.len() implies (#[trigger] ov[j]).id != c@.id by {
                assert(ov.contains(ov[j]));
                assert(cv.take(i as int).contains(ov[j]));
                let k = choose|k: int| 0 <= k < i && #[trigger] cv.take(i as int)[k] == ov[j];
                assert(keys_of(keyed_docs(cv))[k] == cv[k].id);
                assert(keys_of(keyed_docs(cv))[i as int] == cv[i as int].id);
                lemma_sorted_distinct(keys_of(keyed_docs(cv)), k, i as int);
            }
        }
        let mut p: usize = 0;
        while p < out.len()
            invariant
                p <= out@.len(),
                ov == hits_view(out@),
                forall|j: int| 0 <= j < p ==> !sorts_before(field@, dir, c@, #[trigger] ov[j]),
            ensures
                p <= out@.len(),
                forall|j: int| 0 <= j < p ==> !sorts_before(field@, dir, c@, #[trigger] ov[j]),
                p < out@.len() ==> sorts_before(field@, dir, c@, ov[p as int]),
            decreases out@.len() - p,
        {
            if sorts_first(field, dir, c, out[p]) {
                break;
            }
            p = p + 1;
        }
        out.insert(p, c);
        proof {
            let nv = hits_view(out@);
            assert(nv =~= ov.insert(p as int, c@));
            assert forall|j: int| 0 <= j < p implies sorts_before(field@, dir, #[trigger] ov[j], c@) by {
                lemma_sorts_before_total(field@, dir, ov[j], c@);
            }
            assert forall|a: int, b: int| 0 <= a < b < nv.len() implies sorts_before(
                field@,
                dir,
                #[trigger] nv[a],
                #[trigger] nv[b],
            ) by {
                if b < p {
                    assert(nv[a] == ov[a] && nv[b] == ov[b]);
                } else if b == p {
                    assert(nv[a] == ov[a]);
                } else if a < p {
                    assert(nv[a] == ov[a] && nv[b] == ov[b - 1]);
                    if b - 1 > p {
                        lemma_sorts_before_transitive(field@, dir, c@, ov[p as int], ov[b - 1]);
                    }
                    lemma_sorts_before_transitive(field@, dir, ov[a], c@, ov[b - 1]);
                } else if a == p {
                    assert(nv[b] == ov[b - 1]);
                    if b - 1 > p {
                        lemma_sorts_before_transitive(field@, dir, c@, ov[p as int], ov[b - 1]);
                    }
                } else {
                    assert(nv[a] == ov[a - 1] && nv[b] == ov[b - 1]);
                }
            }
            assert(cv.take(i + 1) =~= cv.take(i as int).push(c@));
            assert forall|d: DocumentView| nv.contains(d) <==> cv.take(i + 1).contains(d) by {
                if nv.contains(d) {
                    let k = choose|k: int| 0 <= k < nv.len() && nv[k] == d;
                    if k < p {
                        assert(ov[k] == d);
                        assert(ov.contains(d));
                    } else if k > p {
                        assert(ov[k - 1] == d);
                        assert(ov.contains(d));
                    } else {
                        assert(cv.take(i + 1)[i as int] == d);
                    }
                }
                if cv.take(i + 1).contains(d) {
                    let k = choose|k: int| 0 <= k < i + 1 && #[trigger] cv.take(i + 1)[k] == d;
                    if k < i {
                        assert(cv.take(i as int)[k] == d);
                        assert(cv.take(i as int).contains(d));
                        assert(ov.contains(d));
                        let k2 = choose|k2: int| 0 <= k2 < ov.len() && ov[k2] == d;
                        if k2 < p {
                            assert(nv[k2] == ov[k2]);
                        } else {
                            assert(nv[k2 + 1] == ov[k2]);
                        }
                    } else {
                        assert(nv[p as int] == d);
                    }
                }
            }
        }
        i = i + 1;
    }
    proof {
        assert(cv.take(i as int) =~= cv);
    }
    out
}

impl SearchIndex {
    /// The candidates (body keywords when given, and filters) ordered by the
    /// value of a declared field, after checking the field and then the
    /// filters against the schema.
    pub fn search_sorted(
        &self,
        field: &str,
        direction: SortDirection,
        keywords: Option<&str>,
        filters: &[FieldFilter],
        schema: &Schema,
    ) -> (r: Result<Vec<&Document>, SortError>)
        requires
            self.wf(),
        ensures
            match r {
                Err(e) => if declaration(schema@, field@) is None {
                    e@ == SortErrorView::UnknownField(field@)
                } else {
                    filter_problem(schema@, filters_view(filters@)) matches Some(fe)
                        && e@ == SortErrorView::Filter(fe)
                },
                Ok(hits) => {
                    &&& declaration(schema@, field@) is Some
                    &&& filter_problem(schema@, filters_view(filters@)) is None
                    &&& is_sorted_arrangement(
                        hits_view(hits@),
                        candidates_of(self@, opt_text(keywords), filters_view(filters@)),
                        field@,
                        direction,
                    )
                },
            },
    {
        if schema.field(field).is_none() {
            return Err(SortError::UnknownField(field.into_text()));
        }
        if let Err(e) = check_filters(filters, schema) {
            return Err(SortError::Filter(e));
        }
        let cands = self.candidates(keywords, filters);
        proof {
            let kv = opt_text(keywords);
            let fv = filters_view(filters@);
            lemma_filter_ordered(
                self@,
                |d: DocumentView|
                    has_terms(d.text, keyword_terms(kv))
                        && satisfies(d, fv),
            );
        }
        Ok(arrange(&cands, field, direction))
    }
}

} // verus!
