//! Typed field values, field declarations, and schema validation.
use vstd::prelude::*;

use crate::document::{Document, DocumentView};
use crate::keyed::{find_key, is_ordered, keys_of, lemma_upsert, lookup, place_of, KeyedEntry};
use crate::text::{
    chars_of, compare_text, lemma_text_lt_irreflexive, lemma_text_lt_total,
    lemma_text_lt_transitive, text_lt, IntoText, Placement,
};

verus! {

// ---------------------------------------------------------------------------
// Field types and values
// ---------------------------------------------------------------------------

/// The type a schema declares for a field.
#[derive(Clone, Copy, Debug, PartialEq, Eq, Structural)]
pub enum FieldType {
    Text,
    Integer,
    Boolean,
}

impl FieldType {
    /// The lowercase name of the type: `text`, `integer` or `boolean`.
    pub fn label(&self) -> (r: String)
        ensures
            r@ == type_label(*self),
    {
        match self {
            FieldType::Text => "text".into_text(),
            FieldType::Integer => "integer".into_text(),
            FieldType::Boolean => "boolean".into_text(),
        }
    }
}

/// The lowercase name of a field type.
pub open spec fn type_label(t: FieldType) -> Seq<char> {
    match t {
        FieldType::Text => "text"@,
        FieldType::Integer => "integer"@,
        FieldType::Boolean => "boolean"@,
    }
}

/// A typed field value stored on a document.
#[derive(Debug, PartialEq, Eq)]
pub enum FieldValue {
    Text(String),
    Integer(i64),
    Boolean(bool),
}

/// The content of a field value.
pub enum FieldValueView {
    Text(Seq<char>),
    Integer(i64),
    Boolean(bool),
}

impl View for FieldValue {
    type V = FieldValueView;

    open spec fn view(&self) -> FieldValueView {
        match self {
            FieldValue::Text(s) => FieldValueView::Text(s@),
            FieldValue::Integer(n) => FieldValueView::Integer(*n),
            FieldValue::Boolean(b) => FieldValueView::Boolean(*b),
        }
    }
}

/// The type of a value.
pub open spec fn type_of(v: FieldValueView) -> FieldType {
    match v {
        FieldValueView::Text(_) => FieldType::Text,
        FieldValueView::Integer(_) => FieldType::Integer,
        FieldValueView::Boolean(_) => FieldType::Boolean,
    }
}

/// The content of an optional value.
pub open spec fn opt_value(v: Option<&FieldValue>) -> Option<FieldValueView> {
    match v {
        Some(x) => Some(x@),
        None => None,
    }
}

impl FieldValue {
    pub fn field_type(&self) -> (r: FieldType)
        ensures
            r == type_of(self@),
    {
        match self {
            FieldValue::Text(_) => FieldType::Text,
            FieldValue::Integer(_) => FieldType::Integer,
            FieldValue::Boolean(_) => FieldType::Boolean,
        }
    }

}

impl Clone for FieldValue {
    /// A copy of the value.
    fn clone(&self) -> (r: FieldValue)
        ensures
            r@ == self@,
    {
        match self {
            FieldValue::Text(s) => FieldValue::Text(s.clone()),
            FieldValue::Integer(n) => FieldValue::Integer(*n),
            FieldValue::Boolean(b) => FieldValue::Boolean(*b),
        }
    }
}

/// A value that can become a field value: text, an integer, a boolean, or a
/// field value itself.
pub trait IntoFieldValue {
    /// The field value this value becomes.
    spec fn value_view(&self) -> FieldValueView;

    fn into_field_value(self) -> (r: FieldValue)
        ensures
            r@ == self.value_view(),
    ;
}

impl<'a> IntoFieldValue for &'a str {
    open spec fn value_view(&self) -> FieldValueView {
        FieldValueView::Text((**self)@)
    }

    fn into_field_value(self) -> (r: FieldValue) {
        FieldValue::Text(self.into_text())
    }
}

impl IntoFieldValue for String {
    open spec fn value_view(&self) -> FieldValueView {
        FieldValueView::Text(self@)
    }

    fn into_field_value(self) -> (r: FieldValue) {
        FieldValue::Text(self)
    }
}

impl IntoFieldValue for i64 {
    open spec fn value_view(&self) -> FieldValueView {
        FieldValueView::Integer(*self)
    }

    fn into_field_value(self) -> (r: FieldValue) {
        FieldValue::Integer(self)
    }
}

impl IntoFieldValue for bool {
    open spec fn value_view(&self) -> FieldValueView {
        FieldValueView::Boolean(*self)
    }

    fn into_field_value(self) -> (r: FieldValue) {
        FieldValue::Boolean(self)
    }
}

impl IntoFieldValue for FieldValue {
    open spec fn value_view(&self) -> FieldValueView {
        self@
    }

    fn into_field_value(self) -> (r: FieldValue) {
        self
    }
}

impl From<String> for FieldValue {
    fn from(value: String) -> (r: Self)
        ensures
            r == FieldValue::Text(value),
    {
        FieldValue::Text(value)
    }
}

impl vstd::std_specs::convert::FromSpecImpl<String> for FieldValue {
    open spec fn obeys_from_spec() -> bool {
        true
    }

    open spec fn from_spec(v: String) -> FieldValue {
        FieldValue::Text(v)
    }
}

impl<'a> From<&'a str> for FieldValue {
    fn from(value: &'a str) -> (r: Self)
        ensures
            r@ == FieldValueView::Text(value@),
    {
        FieldValue::Text(value.into_text())
    }
}

/// A text value cannot be built from a string slice in spec code, so the
/// conversion's contract is the `ensures` of `from` above alone.
impl<'a> vstd::std_specs::convert::FromSpecImpl<&'a str> for FieldValue {
    open spec fn obeys_from_spec() -> bool {
        false
    }

    open spec fn from_spec(v: &'a str) -> FieldValue {
        arbitrary()
    }
}

impl From<i64> for FieldValue {
    fn from(value: i64) -> (r: Self)
        ensures
            r == FieldValue::Integer(value),
    {
        FieldValue::Integer(value)
    }
}

impl vstd::std_specs::convert::FromSpecImpl<i64> for FieldValue {
    open spec fn obeys_from_spec() -> bool {
        true
    }

    open spec fn from_spec(v: i64) -> FieldValue {
        FieldValue::Integer(v)
    }
}

impl From<bool> for FieldValue {
    fn from(value: bool) -> (r: Self)
        ensures
            r == FieldValue::Boolean(value),
    {
        FieldValue::Boolean(value)
    }
}

impl vstd::std_specs::convert::FromSpecImpl<bool> for FieldValue {
    open spec fn obeys_from_spec() -> bool {
        true
    }

    open spec fn from_spec(v: bool) -> FieldValue {
        FieldValue::Boolean(v)
    }
}

// ---------------------------------------------------------------------------
// Order on values
// ---------------------------------------------------------------------------

/// Position of a value's variant: texts, then integers, then booleans.
pub open spec fn variant_rank(v: FieldValueView) -> int {
    match v {
        FieldValueView::Text(_) => 0,
        FieldValueView::Integer(_) => 1,
        FieldValueView::Boolean(_) => 2,
    }
}

/// The order on field values: within one type, texts in `text_lt` order,
/// integers numerically and `false` before `true`; values of different
/// types by their variant (text, integer, boolean).
pub open spec fn value_lt(a: FieldValueView, b: FieldValueView) -> bool {
    match a {
        FieldValueView::Text(x) => match b {
            FieldValueView::Text(y) => text_lt(x, y),
            _ => true,
        },
        FieldValueView::Integer(x) => match b {
            FieldValueView::Text(_) => false,
            FieldValueView::Integer(y) => x < y,
            FieldValueView::Boolean(_) => true,
        },
        FieldValueView::Boolean(x) => match b {
            FieldValueView::Boolean(y) => !x && y,
            _ => false,
        },
    }
}

pub proof fn lemma_value_lt_irreflexive(a: FieldValueView)
    ensures
        !value_lt(a, a),
{
    if let FieldValueView::Text(x) = a {
        lemma_text_lt_irreflexive(x);
    }
}

pub proof fn lemma_value_lt_transitive(a: FieldValueView, b: FieldValueView, c: FieldValueView)
    requires
        value_lt(a, b),
        value_lt(b, c),
    ensures
        value_lt(a, c),
{
    if let FieldValueView::Text(x) = a {
        if let FieldValueView::Text(y) = b {
            if let FieldValueView::Text(z) = c {
                lemma_text_lt_transitive(x, y, z);
            }
        }
    }
}

pub proof fn lemma_value_lt_total(a: FieldValueView, b: FieldValueView)
    ensures
        a == b || value_lt(a, b) || value_lt(b, a),
{
    if let FieldValueView::Text(x) = a {
        if let FieldValueView::Text(y) = b {
            lemma_text_lt_total(x, y);
        }
    }
}

pub proof fn lemma_value_lt_asymmetric(a: FieldValueView, b: FieldValueView)
    requires
        value_lt(a, b),
    ensures
        !value_lt(b, a),
        a != b,
{
    lemma_value_lt_irreflexive(a);
    if value_lt(b, a) {
        lemma_value_lt_transitive(a, b, a);
    }
}

/// Compares two values in `value_lt` order.
pub fn compare_values(a: &FieldValue, b: &FieldValue) -> (r: Placement)
    ensures
        r == Placement::Before <==> value_lt(a@, b@),
        r == Placement::Same <==> a@ == b@,
        r == Placement::After <==> value_lt(b@, a@),
{
    proof {
        lemma_value_lt_irreflexive(a@);
    }
    match a {
        FieldValue::Text(x) => match b {
            FieldValue::Text(y) => {
                let xs = chars_of(x.as_str());
                let ys = chars_of(y.as_str());
                compare_text(&xs, &ys)
            },
            _ => Placement::Before,
        },
        FieldValue::Integer(x) => match b {
            FieldValue::Text(_) => Placement::After,
            FieldValue::Integer(y) => {
                if *x < *y {
                    Placement::Before
                } else if *x == *y {
                    Placement::Same
                } else {
                    Placement::After
                }
            },
            FieldValue::Boolean(_) => Placement::Before,
        },
        FieldValue::Boolean(x) => match b {
            FieldValue::Boolean(y) => {
                if *x == *y {
                    Placement::Same
                } else if !*x {
                    Placement::Before
                } else {
                    Placement::After
                }
            },
            _ => Placement::After,
        },
    }
}

// ---------------------------------------------------------------------------
// Declarations
// ---------------------------------------------------------------------------

/// One field declaration: name, type, and whether a value is required.
#[derive(Clone, Debug, PartialEq, Eq)]
pub struct FieldSchema {
    name: String,
    field_type: FieldType,
    required: bool,
}

/// The content of a field declaration.
pub struct FieldSchemaView {
    pub name: Seq<char>,
    pub field_type: FieldType,
    pub required: bool,
}

impl View for FieldSchema {
    type V = FieldSchemaView;

    closed spec fn view(&self) -> FieldSchemaView {
        FieldSchemaView { name: self.name@, field_type: self.field_type, required: self.required }
    }
}

impl KeyedEntry for FieldSchema {
    open spec fn entry_key(&self) -> Seq<char> {
        self@.name
    }

    fn key_text(&self) -> (r: &str) {
        self.name.as_str()
    }
}

impl FieldSchema {
    pub fn new<N: IntoText>(name: N, field_type: FieldType, required: bool) -> (r: Self)
        ensures
            r@ == (FieldSchemaView { name: name.text_view(), field_type, required }),
    {
        FieldSchema { name: name.into_text(), field_type, required }
    }

    pub fn name(&self) -> (r: &str)
        ensures
            r@ == self@.name,
    {
        self.name.as_str()
    }

    pub fn field_type(&self) -> (r: FieldType)
        ensures
            r == self@.field_type,
    {
        self.field_type
    }

    pub fn is_required(&self) -> (r: bool)
        ensures
            r == self@.required,
    {
        self.required
    }
}

/// A schema's declarations keyed by field name.
pub open spec fn decls(schema: Seq<FieldSchemaView>) -> Seq<(Seq<char>, FieldSchemaView)> {
    schema.map_values(|f: FieldSchemaView| (f.name, f))
}

/// The declaration of `name`, if the schema has one.
pub open spec fn declaration(schema: Seq<FieldSchemaView>, name: Seq<char>) -> Option<
    FieldSchemaView,
> {
    lookup(decls(schema), name)
}

/// A set of field declarations used to validate documents before insertion.
#[derive(Clone, Debug, PartialEq, Eq)]
pub struct Schema {
    fields: Vec<FieldSchema>,
}

impl View for Schema {
    type V = Seq<FieldSchemaView>;

    closed spec fn view(&self) -> Seq<FieldSchemaView> {
        self.fields@.map_values(|f: FieldSchema| f@)
    }
}

impl Schema {
    /// Declarations are kept in strictly increasing name order.
    pub open spec fn wf(&self) -> bool {
        is_ordered(decls(self@))
    }

    pub fn new() -> (r: Self)
        ensures
            r@ == Seq::<FieldSchemaView>::empty(),
            r.wf(),
    {
        let r = Schema { fields: Vec::new() };
        proof {
            assert(r@ =~= Seq::<FieldSchemaView>::empty());
            assert(keys_of(decls(r@)) =~= Seq::<Seq<char>>::empty());
        }
        r
    }

    /// Adds or replaces a field declaration, keyed by field name.
    pub fn add_field(&mut self, field: FieldSchema) -> (r: &mut Self)
        requires
            old(self).wf(),
        ensures
            (*r).wf(),
            forall|m: Seq<char>| #[trigger]
                declaration((*r)@, m) == if m == field@.name {
                    Some(field@)
                } else {
                    declaration(old(self)@, m)
                },
            *final(self) == *final(r),
    {
        let k = chars_of(field.name.as_str());
        let ghost s = decls(self@);
        proof {
            assert forall|j: int| 0 <= j < s.len() implies #[trigger] s[j].0
                == self.fields@[j].entry_key() by {
                assert(s[j].0 == self@[j].name);
            }
        }
        let (p, found) = place_of::<_, FieldSchemaView>(self.fields.as_slice(), &k, Ghost(s));
        let ghost fv = field@;
        if found {
            self.fields.remove(p);
            self.fields.insert(p, field);
            proof {
                assert(decls(self@) =~= s.update(p as int, (fv.name, fv)));
                lemma_upsert(s, p as int, fv.name, fv, decls(self@));
            }
        } else {
            self.fields.insert(p, field);
            proof {
                assert(decls(self@) =~= s.insert(p as int, (fv.name, fv)));
                lemma_upsert(s, p as int, fv.name, fv, decls(self@));
            }
        }
        self
    }

    /// The declaration of `name`, if any.
    pub fn field(&self, name: &str) -> (r: Option<&FieldSchema>)
        ensures
            match r {
                Some(f) => declaration(self@, name@) == Some(f@),
                None => declaration(self@, name@) is None,
            },
    {
        let k = chars_of(name);
        let ghost s = decls(self@);
        proof {
            assert forall|j: int| 0 <= j < s.len() implies #[trigger] s[j].0
                == self.fields@[j].entry_key() by {
                assert(s[j].0 == self@[j].name);
            }
        }
        match find_key::<_, FieldSchemaView>(self.fields.as_slice(), &k, Ghost(s)) {
            Some(i) => {
                proof {
                    assert(s[i as int].1 == self.fields@[i as int]@);
                }
                Some(&self.fields[i])
            },
            None => None,
        }
    }

    /// Checks a document against every declared field without modifying
    /// anything. Unknown fields and type mismatches are reported in the
    /// document's field order, then missing required fields in declaration
    /// order; the first failure is returned.
    pub fn validate(&self, document: &Document) -> (r: Result<(), SchemaError>)
        ensures
            match r {
                Ok(_) => schema_violation(self@, document@) is None,
                Err(e) => schema_violation(self@, document@) == Some(e@),
            },
    {
        let fields = document.fields();
        let ghost fs = document@.fields;
        let mut i: usize = 0;
        proof {
            assert(fs.skip(0) =~= fs);
        }
        while i < fields.len()
            invariant
                i <= fields@.len(),
                fs == document@.fields,
                fs.len() == fields@.len(),
                forall|j: int| 0 <= j < fields@.len() ==> fs[j] == (#[trigger] fields@[j].0@, fields@[j].1@),
                field_problem(self@, fs) == field_problem(self@, fs.skip(i as int)),
            decreases fields@.len() - i,
        {
            let name = &fields[i].0;
            let value = &fields[i].1;
            proof {
                assert(fs[i as int] == (fields@[i as int].0@, fields@[i as int].1@));
                assert(fs.skip(i as int)[0] == fs[i as int]);
                assert(fs.skip(i as int).drop_first() =~= fs.skip(i + 1));
            }
            match self.field(name.as_str()) {
                None => {
                    return Err(SchemaError::UnknownField(name.clone()));
                },
                Some(decl) => {
                    let expected = decl.field_type();
                    let actual = value.field_type();
                    if actual != expected {
                        return Err(
                            SchemaError::TypeMismatch { field: name.clone(), expected, actual },
                        );
                    }
                },
            }
            i = i + 1;
        }
        let ghost sv = self@;
        let mut j: usize = 0;
        proof {
            assert(sv.skip(0) =~= sv);
        }
        while j < self.fields.len()
            invariant
                j <= self.fields@.len(),
                sv == self@,
                fs == document@.fields,
                field_problem(sv, fs) is None,
                missing_required(sv, fs) == missing_required(sv.skip(j as int), fs),
            decreases self.fields@.len() - j,
        {
            let decl = &self.fields[j];
            proof {
                assert(sv.skip(j as int)[0] == decl@);
                assert(sv.skip(j as int).drop_first() =~= sv.skip(j + 1));
            }
            if decl.is_required() && document.field(decl.name()).is_none() {
                return Err(SchemaError::MissingField(decl.name.clone()));
            }
            j = j + 1;
        }
        Ok(())
    }
}

impl Default for Schema {
    fn default() -> (r: Self)
        ensures
            r@ == Seq::<FieldSchemaView>::empty(),
            r.wf(),
    {
        Schema::new()
    }
}

// ---------------------------------------------------------------------------
// Validation
// ---------------------------------------------------------------------------

/// Why a document failed schema validation.
#[derive(Clone, Debug, PartialEq, Eq)]
pub enum SchemaError {
    /// The document carries a field the schema does not declare.
    UnknownField(String),
    /// A required field has no value on the document.
    MissingField(String),
    /// A field value does not match the declared type.
    TypeMismatch { field: String, expected: FieldType, actual: FieldType },
}

/// The content of a schema error.
pub enum SchemaErrorView {
    UnknownField(Seq<char>),
    MissingField(Seq<char>),
    TypeMismatch { field: Seq<char>, expected: FieldType, actual: FieldType },
}

impl View for SchemaError {
    type V = SchemaErrorView;

    open spec fn view(&self) -> SchemaErrorView {
        match self {
            SchemaError::UnknownField(n) => SchemaErrorView::UnknownField(n@),
            SchemaError::MissingField(n) => SchemaErrorView::MissingField(n@),
            SchemaError::TypeMismatch { field, expected, actual } => SchemaErrorView::TypeMismatch {
                field: field@,
                expected: *expected,
                actual: *actual,
            },
        }
    }
}

/// The sentence describing a schema error.
pub open spec fn schema_error_text(e: SchemaErrorView) -> Seq<char> {
    match e {
        SchemaErrorView::UnknownField(n) => "unknown field: "@ + n,
        SchemaErrorView::MissingField(n) => "missing required field: "@ + n,
        SchemaErrorView::TypeMismatch { field, expected, actual } => "field "@ + field
            + " expects "@ + type_label(expected) + " but holds "@ + type_label(actual),
    }
}

impl SchemaError {
    /// A sentence describing the error.
    pub fn message(&self) -> (r: String)
        ensures
            r@ == schema_error_text(self@),
    {
        match self {
            SchemaError::UnknownField(n) => {
                let mut r = "unknown field: ".into_text();
                r.append(n.as_str());
                r
            },
            SchemaError::MissingField(n) => {
                let mut r = "missing required field: ".into_text();
                r.append(n.as_str());
                r
            },
            SchemaError::TypeMismatch { field, expected, actual } => {
                let mut r = "field ".into_text();
                r.append(field.as_str());
                r.append(" expects ");
                r.append(expected.label().as_str());
                r.append(" but holds ");
                r.append(actual.label().as_str());
                r
            },
        }
    }
}

/// The first of `fields`, in order, that the schema does not declare or
/// declares with another type than the value's.
pub open spec fn field_problem(
    schema: Seq<FieldSchemaView>,
    fields: Seq<(Seq<char>, FieldValueView)>,
) -> Option<SchemaErrorView>
    decreases fields.len(),
{
    if fields.len() == 0 {
        None
    } else {
        let name = fields[0].0;
        let actual = type_of(fields[0].1);
        match declaration(schema, name) {
            None => Some(SchemaErrorView::UnknownField(name)),
            Some(d) => if d.field_type != actual {
                Some(SchemaErrorView::TypeMismatch { field: name, expected: d.field_type, actual })
            } else {
                field_problem(schema, fields.drop_first())
            },
        }
    }
}

/// The first of `schema`'s declarations, in order, that is required and has
/// no value among `fields`.
pub open spec fn missing_required(
    schema: Seq<FieldSchemaView>,
    fields: Seq<(Seq<char>, FieldValueView)>,
) -> Option<SchemaErrorView>
    decreases schema.len(),
{
    if schema.len() == 0 {
        None
    } else if schema[0].required && lookup(fields, schema[0].name) is None {
        Some(SchemaErrorView::MissingField(schema[0].name))
    } else {
        missing_required(schema.drop_first(), fields)
    }
}

/// The first reason `doc` does not fit `schema`: an unknown or mistyped
/// field of the document, else a missing required field.
pub open spec fn schema_violation(schema: Seq<FieldSchemaView>, doc: DocumentView) -> Option<
    SchemaErrorView,
> {
    match field_problem(schema, doc.fields) {
        Some(e) => Some(e),
        None => missing_required(schema, doc.fields),
    }
}

} // verus!
