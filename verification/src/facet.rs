//! Facet counting: how many candidate documents carry each value of a field.
use vstd::prelude::*;

use crate::document::DocumentView;
use crate::filter::{
    check_filters, filter_error_text, filter_problem, filters_view, FieldFilter, FilterError,
    FilterErrorView,
};
use crate::index::{candidates_of, hits_view, opt_text, SearchIndex};
use crate::keyed::lookup;
use crate::schema::{
    compare_values, declaration, lemma_value_lt_asymmetric, lemma_value_lt_total,
    lemma_value_lt_transitive, value_lt, FieldValue, FieldValueView, Schema,
};
use crate::text::{IntoText, Placement};

verus! {

broadcast use vstd::seq_lib::group_seq_properties;

/// One entry of a facet count result: a field value and how many candidate
/// documents carry it.
#[derive(Clone, Debug, PartialEq, Eq)]
pub struct FacetCount {
    value: FieldValue,
    count: usize,
}

impl View for FacetCount {
    type V = (FieldValueView, nat);

    closed spec fn view(&self) -> (FieldValueView, nat) {
        (self.value@, self.count as nat)
    }
}

impl FacetCount {
    pub(crate) fn new(value: FieldValue, count: usize) -> (r: Self)
        ensures
            r@ == (value@, count as nat),
    {
        FacetCount { value, count }
    }

    pub fn value(&self) -> (r: &FieldValue)
        ensures
            r@ == self@.0,
    {
        &self.value
    }

    pub fn count(&self) -> (r: usize)
        ensures
            r == self@.1,
    {
        self.count
    }
}

/// The content of a facet table.
pub open spec fn table_view(t: Seq<FacetCount>) -> Seq<(FieldValueView, nat)> {
    t.map_values(|c: FacetCount| c@)
}

/// How many of `cands` carry value `v` in `field`.
pub open spec fn value_count(cands: Seq<DocumentView>, field: Seq<char>, v: FieldValueView) -> nat {
    cands.filter(|d: DocumentView| lookup(d.fields, field) == Some(v)).len()
}

/// `table` lists, in strictly increasing value order, each value whose
/// count is positive, with that count.
pub open spec fn tabulates(
    table: Seq<(FieldValueView, nat)>,
    count: spec_fn(FieldValueView) -> nat,
) -> bool {
    &&& forall|i: int, j: int|
        0 <= i < j < table.len() ==> value_lt(#[trigger] table[i].0, #[trigger] table[j].0)
    &&& forall|i: int| 0 <= i < table.len() ==> #[trigger] table[i].1 == count(table[i].0)
    &&& forall|i: int| 0 <= i < table.len() ==> #[trigger] table[i].1 > 0
    &&& forall|v: FieldValueView| #[trigger] count(v) > 0 ==> exists|i: int|
        0 <= i < table.len() && #[trigger] table[i].0 == v
}

/// The facet table of `field` over `cands`: each value carried by a
/// candidate, in value order, with the number of candidates carrying it.
pub open spec fn is_facet_table(
    table: Seq<(FieldValueView, nat)>,
    cands: Seq<DocumentView>,
    field: Seq<char>,
) -> bool {
    tabulates(table, |v: FieldValueView| value_count(cands, field, v))
}

/// The sum of a table's counts.
pub open spec fn total(t: Seq<(FieldValueView, nat)>) -> nat
    decreases t.len(),
{
    if t.len() == 0 {
        0
    } else {
        total(t.drop_last()) + t.last().1
    }
}

/// How many of `cands` carry `field` at all.
pub open spec fn carriers(cands: Seq<DocumentView>, field: Seq<char>) -> nat {
    cands.filter(|d: DocumentView| lookup(d.fields, field) is Some).len()
}

proof fn lemma_total_update(t: Seq<(FieldValueView, nat)>, p: int, x: (FieldValueView, nat))
    requires
        0 <= p < t.len(),
    ensures
        total(t.update(p, x)) + t[p].1 == total(t) + x.1,
    decreases t.len(),
{
    let u = t.update(p, x);
    if p == t.len() - 1 {
        assert(u.drop_last() =~= t.drop_last());
    } else {
        assert(u.drop_last() =~= t.drop_last().update(p, x));
        lemma_total_update(t.drop_last(), p, x);
    }
}

proof fn lemma_total_insert(t: Seq<(FieldValueView, nat)>, p: int, x: (FieldValueView, nat))
    requires
        0 <= p <= t.len(),
    ensures
        total(t.insert(p, x)) == total(t) + x.1,
    decreases t.len(),
{
    let u = t.insert(p, x);
    if p == t.len() {
        assert(u.drop_last() =~= t);
    } else {
        assert(u.drop_last() =~= t.drop_last().insert(p, x));
        lemma_total_insert(t.drop_last(), p, x);
    }
}

/// Counts one more occurrence of `v` in a table.
fn tally(table: &mut Vec<FacetCount>, v: &FieldValue, Ghost(count): Ghost<
    spec_fn(FieldValueView) -> nat,
>)
    requires
        tabulates(table_view(old(table)@), count),
        count(v@) + 1 <= usize::MAX,
    ensures
        total(table_view(final(table)@)) == total(table_view(old(table)@)) + 1,
        tabulates(
            table_view(final(table)@),
            |u: FieldValueView|
                if u == v@ {
                    count(u) + 1
                } else {
                    count(u)
                },
        ),
{
    let ghost t = table_view(table@);
    let ghost next = |u: FieldValueView|
        if u == v@ {
            count(u) + 1
        } else {
            count(u)
        };
    let mut p: usize = 0;
    while p < table.len()
        invariant
            p <= table@.len(),
            t == table_view(table@),
            forall|j: int| 0 <= j < p ==> value_lt(#[trigger] t[j].0, v@),
        ensures
            p <= table@.len(),
            forall|j: int| 0 <= j < p ==> value_lt(#[trigger] t[j].0, v@),
            p < table@.len() ==> !value_lt(t[p as int].0, v@),
        decreases table@.len() - p,
    {
        if compare_values(table[p].value(), v) != Placement::Before {
            break;
        }
        p = p + 1;
    }
    proof {
        assert forall|j: int| 0 <= j < p implies t[j].0 != v@ by {
            lemma_value_lt_asymmetric(t[j].0, v@);
        }
    }
    if p < table.len() && compare_values(table[p].value(), v) == Placement::Same {
        let old_entry = table.remove(p);
        proof {
            assert(t[p as int].0 == v@);
            assert(t[p as int].1 == count(v@));
        }
        let bumped = FacetCount::new(old_entry.value.clone(), old_entry.count + 1);
        table.insert(p, bumped);
        proof {
            let n = table_view(table@);
            assert(n =~= t.update(p as int, (v@, count(v@) + 1)));
            lemma_total_update(t, p as int, (v@, count(v@) + 1));
            assert forall|i: int| 0 <= i < n.len() implies #[trigger] n[i].1 == next(n[i].0) by {
                if i != p {
                    assert(n[i] == t[i]);
                    if t[i].0 == v@ {
                        if i < p {
                            lemma_value_lt_asymmetric(t[i].0, t[p as int].0);
                        } else {
                            lemma_value_lt_asymmetric(t[p as int].0, t[i].0);
                        }
                    }
                }
            }
            assert forall|u: FieldValueView| #[trigger] next(u) > 0 implies exists|i: int|
                0 <= i < n.len() && #[trigger] n[i].0 == u by {
                if u == v@ {
                    assert(n[p as int].0 == u);
                } else {
                    assert(count(u) > 0);
                    let i = choose|i: int| 0 <= i < t.len() && #[trigger] t[i].0 == u;
                    assert(n[i].0 == u);
                }
            }
            assert forall|i: int, j: int| 0 <= i < j < n.len() implies value_lt(
                #[trigger] n[i].0,
                #[trigger] n[j].0,
            ) by {
                assert(n[i].0 == t[i].0 && n[j].0 == t[j].0);
            }
        }
    } else {
        proof {
            if p < t.len() {
                lemma_value_lt_total(t[p as int].0, v@);
                assert(t[p as int].0 != v@);
            }
            assert forall|i: int| 0 <= i < t.len() implies t[i].0 != v@ by {
                if i > p {
                    lemma_value_lt_transitive(v@, t[p as int].0, t[i].0);
                    lemma_value_lt_asymmetric(v@, t[i].0);
                }
            }
            if count(v@) > 0 {
                let i = choose|i: int| 0 <= i < t.len() && #[trigger] t[i].0 == v@;
                assert(false);
            }
        }
        table.insert(p, FacetCount::new(v.clone(), 1));
        proof {
            let n = table_view(table@);
            assert(n =~= t.insert(p as int, (v@, 1nat)));
            lemma_total_insert(t, p as int, (v@, 1nat));
            assert forall|i: int| 0 <= i < n.len() implies #[trigger] n[i].1 == next(n[i].0) by {
                if i < p {
                    assert(n[i] == t[i]);
                } else if i > p {
                    assert(n[i] == t[i - 1]);
                }
            }
            assert forall|i: int| 0 <= i < n.len() implies #[trigger] n[i].1 > 0 by {
                if i < p {
                    assert(n[i] == t[i]);
                } else if i > p {
                    assert(n[i] == t[i - 1]);
                }
            }
            assert forall|u: FieldValueView| #[trigger] next(u) > 0 implies exists|i: int|
                0 <= i < n.len() && #[trigger] n[i].0 == u by {
                if u == v@ {
                    assert(n[p as int].0 == u);
                } else {
                    assert(count(u) > 0);
                    let i = choose|i: int| 0 <= i < t.len() && #[trigger] t[i].0 == u;
                    if i < p {
                        assert(n[i].0 == u);
                    } else {
                        assert(n[i + 1].0 == u);
                    }
                }
            }
            assert forall|i: int, j: int| 0 <= i < j < n.len() implies value_lt(
                #[trigger] n[i].0,
                #[trigger] n[j].0,
            ) by {
                if j < p {
                    assert(n[i] == t[i] && n[j] == t[j]);
                } else if j == p {
                    assert(n[i] == t[i]);
                } else if i < p {
                    assert(n[i] == t[i] && n[j] == t[j - 1]);
                    if j - 1 > p {
                        lemma_value_lt_transitive(v@, t[p as int].0, t[j - 1].0);
                    }
                    lemma_value_lt_transitive(t[i].0, v@, t[j - 1].0);
                } else if i == p {
                    assert(n[j] == t[j - 1]);
                    if j - 1 > p {
                        lemma_value_lt_transitive(v@, t[p as int].0, t[j - 1].0);
                    }
                } else {
                    assert(n[i] == t[i - 1] && n[j] == t[j - 1]);
                }
            }
        }
    }
}

/// Why a facet count request could not be served.
#[derive(Clone, Debug, PartialEq, Eq)]
pub enum FacetError {
    /// The faceted field is not declared in the schema.
    UnknownField(String),
    /// One of the candidate-narrowing filters is invalid.
    Filter(FilterError),
}

/// The content of a facet error.
pub enum FacetErrorView {
    UnknownField(Seq<char>),
    Filter(FilterErrorView),
}

impl View for FacetError {
    type V = FacetErrorView;

    open spec fn view(&self) -> FacetErrorView {
        match self {
            FacetError::UnknownField(n) => FacetErrorView::UnknownField(n@),
            FacetError::Filter(e) => FacetErrorView::Filter(e@),
        }
    }
}

impl FacetError {
    /// A sentence describing the error.
    pub fn message(&self) -> (r: String)
        ensures
            r@ == match self@ {
                FacetErrorView::UnknownField(n) => "unknown facet field: "@ + n,
                FacetErrorView::Filter(e) => "invalid facet filter: "@ + filter_error_text(e),
            },
    {
        match self {
            FacetError::UnknownField(n) => {
                let mut r = "unknown facet field: ".into_text();
                r.append(n.as_str());
                r
            },
            FacetError::Filter(e) => {
                let mut r = "invalid facet filter: ".into_text();
                r.append(e.message().as_str());
                r
            },
        }
    }

    /// The filter error underlying this error, if any.
    pub fn source(&self) -> (r: Option<&FilterError>)
        ensures
            match self {
                FacetError::UnknownField(_) => r is None,
                FacetError::Filter(e) => r == Some(e),
            },
    {
        match self {
            FacetError::UnknownField(_) => None,
            FacetError::Filter(e) => Some(e),
        }
    }
}

impl From<FilterError> for FacetError {
    fn from(error: FilterError) -> (r: Self)
        ensures
            r == FacetError::Filter(error),
    {
        FacetError::Filter(error)
    }
}

impl vstd::std_specs::convert::FromSpecImpl<FilterError> for FacetError {
    open spec fn obeys_from_spec() -> bool {
        true
    }

    open spec fn from_spec(v: FilterError) -> FacetError {
        FacetError::Filter(v)
    }
}

impl SearchIndex {
    /// Counts, for each value of a declared field, the candidates (body
    /// keywords when given, and filters) that carry it, in value order.
    /// Candidates without the field are not counted. The field is checked
    /// against the schema first, then the filters.
    pub fn facet_counts(
        &self,
        field: &str,
        keywords: Option<&str>,
        filters: &[FieldFilter],
        schema: &Schema,
    ) -> (r: Result<Vec<FacetCount>, FacetError>)
        ensures
            match r {
                Err(e) => if declaration(schema@, field@) is None {
                    e@ == FacetErrorView::UnknownField(field@)
                } else {
                    filter_problem(schema@, filters_view(filters@)) matches Some(fe)
                        && e@ == FacetErrorView::Filter(fe)
                },
                Ok(table) => {
                    &&& declaration(schema@, field@) is Some
                    &&& filter_problem(schema@, filters_view(filters@)) is None
                    &&& is_facet_table(
                        table_view(table@),
                        candidates_of(self@, opt_text(keywords), filters_view(filters@)),
                        field@,
                    )
                    &&& total(table_view(table@)) == carriers(
                        candidates_of(self@, opt_text(keywords), filters_view(filters@)),
                        field@,
                    )
                },
            },
    {
        if schema.field(field).is_none() {
            return Err(FacetError::UnknownField(field.into_text()));
        }
        if let Err(e) = check_filters(filters, schema) {
            return Err(FacetError::Filter(e));
        }
        let cands = self.candidates(keywords, filters);
        let ghost cv = hits_view(cands@);
        let mut table: Vec<FacetCount> = Vec::new();
        let mut i: usize = 0;
        proof {
            assert(table_view(table@) =~= Seq::<(FieldValueView, nat)>::empty());
            assert forall|v: FieldValueView| value_count(cv.take(0), field@, v) == 0 by {
                reveal_with_fuel(Seq::filter, 1);
                assert(cv.take(0) =~= Seq::<DocumentView>::empty());
            }
            reveal_with_fuel(Seq::filter, 1);
            assert(cv.take(0) =~= Seq::<DocumentView>::empty());
        }
        while i < cands.len()
            invariant
                i <= cands@.len(),
                cv == hits_view(cands@),
                tabulates(
                    table_view(table@),
                    |v: FieldValueView| value_count(cv.take(i as int), field@, v),
                ),
                total(table_view(table@)) == carriers(cv.take(i as int), field@),
            decreases cands@.len() - i,
        {
            let doc = cands[i];
            let ghost before = |v: FieldValueView| value_count(cv.take(i as int), field@, v);
            let ghost after = |v: FieldValueView| value_count(cv.take(i + 1), field@, v);
            proof {
                assert(cv[i as int] == doc@);
                assert(cv.take(i + 1).drop_last() =~= cv.take(i as int));
                assert(cv.take(i + 1).last() == doc@);
            }
            match doc.field(field) {
                Some(v) => {
                    proof {
                        let pred = |d: DocumentView| lookup(d.fields, field@) == Some(v@);
                        cv.take(i as int).lemma_filter_len(pred);
                    }
                    tally(&mut table, v, Ghost(before));
                    proof {
                        let bumped = |u: FieldValueView|
                            if u == v@ {
                                before(u) + 1
                            } else {
                                before(u)
                            };
                        assert forall|u: FieldValueView| #[trigger] after(u) == bumped(u) by {
                            reveal_with_fuel(Seq::filter, 1);
                        }
                        assert(after =~= bumped);
                        reveal_with_fuel(Seq::filter, 1);
                    }
                },
                None => {
                    proof {
                        assert forall|u: FieldValueView| #[trigger] after(u) == before(u) by {
                            reveal_with_fuel(Seq::filter, 1);
                        }
                        assert(after =~= before);
                        reveal_with_fuel(Seq::filter, 1);
                    }
                },
            }
            i = i + 1;
        }
        proof {
            assert(cv.take(i as int) =~= cv);
        }
        Ok(table)
    }
}

} // verus!
