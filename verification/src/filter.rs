//! Exact-match conditions on declared schema fields.
use vstd::prelude::*;

use crate::document::{Document, DocumentView};
use crate::keyed::lookup;
use crate::schema::{
    compare_values, declaration, type_label, type_of, FieldSchemaView, FieldType, FieldValue, FieldValueView,
    IntoFieldValue, Schema,
};
use crate::text::{IntoText, Placement};

verus! {

/// An exact-match condition on one declared schema field: a document
/// matches only when it carries a field with this name holding a value
/// equal (in type and value) to `value`.
#[derive(Clone, Debug, PartialEq, Eq)]
pub struct FieldFilter {
    name: String,
    value: FieldValue,
}

/// The content of a filter.
pub struct FilterView {
    pub name: Seq<char>,
    pub value: FieldValueView,
}

impl View for FieldFilter {
    type V = FilterView;

    closed spec fn view(&self) -> FilterView {
        FilterView { name: self.name@, value: self.value@ }
    }
}

impl FieldFilter {
    pub fn new<N: IntoText, V: IntoFieldValue>(name: N, value: V) -> (r: Self)
        ensures
            r@ == (FilterView { name: name.text_view(), value: value.value_view() }),
    {
        FieldFilter { name: name.into_text(), value: value.into_field_value() }
    }

    pub fn name(&self) -> (r: &str)
        ensures
            r@ == self@.name,
    {
        self.name.as_str()
    }

    pub fn value(&self) -> (r: &FieldValue)
        ensures
            r@ == self@.value,
    {
        &self.value
    }
}

/// The content of a list of filters.
pub open spec fn filters_view(fs: Seq<FieldFilter>) -> Seq<FilterView> {
    fs.map_values(|f: FieldFilter| f@)
}

/// Why a typed field filter could not be applied.
#[derive(Clone, Debug, PartialEq, Eq)]
pub enum FilterError {
    /// The filter names a field the schema does not declare.
    UnknownField(String),
    /// The filter value does not match the declared field type.
    TypeMismatch { field: String, expected: FieldType, actual: FieldType },
}

/// The content of a filter error.
pub enum FilterErrorView {
    UnknownField(Seq<char>),
    TypeMismatch { field: Seq<char>, expected: FieldType, actual: FieldType },
}

impl View for FilterError {
    type V = FilterErrorView;

    open spec fn view(&self) -> FilterErrorView {
        match self {
            FilterError::UnknownField(n) => FilterErrorView::UnknownField(n@),
            FilterError::TypeMismatch { field, expected, actual } => FilterErrorView::TypeMismatch {
                field: field@,
                expected: *expected,
                actual: *actual,
            },
        }
    }
}

/// The sentence describing a filter error.
pub open spec fn filter_error_text(e: FilterErrorView) -> Seq<char> {
    match e {
        FilterErrorView::UnknownField(n) => "unknown filter field: "@ + n,
        FilterErrorView::TypeMismatch { field, expected, actual } => "filter on "@ + field
            + " expects "@ + type_label(expected) + " but was given "@ + type_label(actual),
    }
}

impl FilterError {
    /// A sentence describing the error.
    pub fn message(&self) -> (r: String)
        ensures
            r@ == filter_error_text(self@),
    {
        match self {
            FilterError::UnknownField(n) => {
                let mut r = "unknown filter field: ".into_text();
                r.append(n.as_str());
                r
            },
            FilterError::TypeMismatch { field, expected, actual } => {
                let mut r = "filter on ".into_text();
                r.append(field.as_str());
                r.append(" expects ");
                r.append(expected.label().as_str());
                r.append(" but was given ");
                r.append(actual.label().as_str());
                r
            },
        }
    }
}

/// The first filter, in list order, that names an undeclared field or
/// holds a value of another type than the declared one.
pub open spec fn filter_problem(schema: Seq<FieldSchemaView>, fs: Seq<FilterView>) -> Option<
    FilterErrorView,
>
    decreases fs.len(),
{
    if fs.len() == 0 {
        None
    } else {
        let name = fs[0].name;
        let actual = type_of(fs[0].value);
        match declaration(schema, name) {
            None => Some(FilterErrorView::UnknownField(name)),
            Some(d) => if d.field_type != actual {
                Some(FilterErrorView::TypeMismatch { field: name, expected: d.field_type, actual })
            } else {
                filter_problem(schema, fs.drop_first())
            },
        }
    }
}

/// The document carries every filtered field with exactly the filtered value.
pub open spec fn satisfies(doc: DocumentView, fs: Seq<FilterView>) -> bool {
    forall|i: int| 0 <= i < fs.len() ==> lookup(doc.fields, #[trigger] fs[i].name) == Some(fs[i].value)
}

/// Checks every filter against the schema, in list order.
pub fn check_filters(filters: &[FieldFilter], schema: &Schema) -> (r: Result<(), FilterError>)
    ensures
        match r {
            Ok(_) => filter_problem(schema@, filters_view(filters@)) is None,
            Err(e) => filter_problem(schema@, filters_view(filters@)) == Some(e@),
        },
{
    let ghost fs = filters_view(filters@);
    let mut i: usize = 0;
    proof {
        assert(fs.skip(0) =~= fs);
    }
    while i < filters.len()
        invariant
            i <= filters@.len(),
            fs == filters_view(filters@),
            filter_problem(schema@, fs) == filter_problem(schema@, fs.skip(i as int)),
        decreases filters@.len() - i,
    {
        let f = &filters[i];
        proof {
            assert(fs.skip(i as int)[0] == f@);
            assert(fs.skip(i as int).drop_first() =~= fs.skip(i + 1));
        }
        match schema.field(f.name()) {
            None => {
                return Err(FilterError::UnknownField(f.name.clone()));
            },
            Some(decl) => {
                let expected = decl.field_type();
                let actual = f.value.field_type();
                if actual != expected {
                    return Err(FilterError::TypeMismatch { field: f.name.clone(), expected, actual });
                }
            },
        }
        i = i + 1;
    }
    Ok(())
}

/// Whether the document satisfies every filter.
pub fn matches_filters(doc: &Document, filters: &[FieldFilter]) -> (r: bool)
    ensures
        r == satisfies(doc@, filters_view(filters@)),
{
    let ghost fs = filters_view(filters@);
    let mut i: usize = 0;
    while i < filters.len()
        invariant
            i <= filters@.len(),
            fs == filters_view(filters@),
            forall|j: int|
                0 <= j < i ==> lookup(doc@.fields, #[trigger] fs[j].name) == Some(fs[j].value),
        decreases filters@.len() - i,
    {
        let f = &filters[i];
        proof {
            assert(fs[i as int] == f@);
        }
        match doc.field(f.name()) {
            None => {
                return false;
            },
            Some(v) => {
                if compare_values(v, f.value()) != Placement::Same {
                    return false;
                }
            },
        }
        i = i + 1;
    }
    true
}

} // verus!
