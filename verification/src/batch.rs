//! Writing batches of documents: in input order like repeated inserts, or
//! validated as a whole before anything is stored.
use vstd::prelude::*;

use crate::document::{Document, DocumentView};
use crate::index::{find, index_map, opt_doc, SearchIndex};
use crate::schema::{
    schema_error_text, schema_violation, FieldSchemaView, Schema, SchemaError, SchemaErrorView,
};
use crate::text::{chars_of, decimal, decimal_text, same_text, IntoText};

verus! {

broadcast use vstd::seq_lib::group_seq_properties;

/// Why a schema-validated batch insert failed. Every variant carries the
/// position of the offending document within the batch and its key.
#[derive(Clone, Debug, PartialEq, Eq)]
pub enum BatchError {
    /// The document at this position failed schema validation.
    Schema { index: usize, key: String, error: SchemaError },
    /// The document at this position repeats a key that already appeared
    /// earlier in the same batch.
    DuplicateKey { index: usize, key: String },
}

/// The content of a batch error.
pub enum BatchErrorView {
    Schema { index: int, key: Seq<char>, error: SchemaErrorView },
    DuplicateKey { index: int, key: Seq<char> },
}

impl View for BatchError {
    type V = BatchErrorView;

    open spec fn view(&self) -> BatchErrorView {
        match self {
            BatchError::Schema { index, key, error } => BatchErrorView::Schema {
                index: *index as int,
                key: key@,
                error: error@,
            },
            BatchError::DuplicateKey { index, key } => BatchErrorView::DuplicateKey {
                index: *index as int,
                key: key@,
            },
        }
    }
}

/// The position carried by a batch error.
pub open spec fn error_index(e: BatchErrorView) -> int {
    match e {
        BatchErrorView::Schema { index, .. } => index,
        BatchErrorView::DuplicateKey { index, .. } => index,
    }
}

/// The key carried by a batch error.
pub open spec fn error_key(e: BatchErrorView) -> Seq<char> {
    match e {
        BatchErrorView::Schema { key, .. } => key,
        BatchErrorView::DuplicateKey { key, .. } => key,
    }
}

impl BatchError {
    /// The position of the offending document within the submitted batch.
    pub fn index(&self) -> (r: usize)
        ensures
            r == error_index(self@),
    {
        match self {
            BatchError::Schema { index, .. } => *index,
            BatchError::DuplicateKey { index, .. } => *index,
        }
    }

    /// The key of the offending document.
    pub fn key(&self) -> (r: &str)
        ensures
            r@ == error_key(self@),
    {
        match self {
            BatchError::Schema { key, .. } => key.as_str(),
            BatchError::DuplicateKey { key, .. } => key.as_str(),
        }
    }
}

impl BatchError {
    /// A sentence describing the error.
    pub fn message(&self) -> (r: String)
        ensures
            r@ == match self@ {
                BatchErrorView::Schema { index, key, error } => "batch document "@ + decimal(
                    index as nat,
                ) + " ("@ + key + "): "@ + schema_error_text(error),
                BatchErrorView::DuplicateKey { index, key } => "batch document "@ + decimal(
                    index as nat,
                ) + " repeats key: "@ + key,
            },
    {
        match self {
            BatchError::Schema { index, key, error } => {
                let mut r = "batch document ".into_text();
                r.append(decimal_text(*index).as_str());
                r.append(" (");
                r.append(key.as_str());
                r.append("): ");
                r.append(error.message().as_str());
                r
            },
            BatchError::DuplicateKey { index, key } => {
                let mut r = "batch document ".into_text();
                r.append(decimal_text(*index).as_str());
                r.append(" repeats key: ");
                r.append(key.as_str());
                r
            },
        }
    }
}

/// The content of a list of documents.
pub open spec fn docs_view(ds: Seq<Document>) -> Seq<DocumentView> {
    ds.map_values(|d: Document| d@)
}

/// The stored documents after inserting `ds` one after another into `m`.
pub open spec fn apply_all(m: Map<Seq<char>, DocumentView>, ds: Seq<DocumentView>) -> Map<
    Seq<char>,
    DocumentView,
>
    decreases ds.len(),
{
    if ds.len() == 0 {
        m
    } else {
        apply_all(m, ds.drop_last()).insert(ds.last().id, ds.last())
    }
}

/// What a map holds under `k`.
pub open spec fn map_get(m: Map<Seq<char>, DocumentView>, k: Seq<char>) -> Option<DocumentView> {
    if m.contains_key(k) {
        Some(m[k])
    } else {
        None
    }
}

/// The document that the insert at position `i` of a batch replaces: the
/// one stored under its key once the earlier documents were inserted.
pub open spec fn replaced_at(m: Map<Seq<char>, DocumentView>, ds: Seq<DocumentView>, i: int) -> Option<
    DocumentView,
> {
    map_get(apply_all(m, ds.take(i)), ds[i].id)
}

/// Whether the document at `i` repeats the key of an earlier one.
pub open spec fn repeats_key(ds: Seq<DocumentView>, i: int) -> bool {
    exists|j: int| 0 <= j < i && #[trigger] ds[j].id == ds[i].id
}

/// The first failure of a batch from position `i` on: the first position,
/// in order, whose document fails the schema or repeats an earlier key
/// (schema failures reported first at one position).
pub open spec fn problem_from(schema: Seq<FieldSchemaView>, ds: Seq<DocumentView>, i: nat) -> Option<
    BatchErrorView,
>
    decreases ds.len() - i,
{
    if i >= ds.len() {
        None
    } else {
        match schema_violation(schema, ds[i as int]) {
            Some(e) => Some(BatchErrorView::Schema { index: i as int, key: ds[i as int].id, error: e }),
            None => if repeats_key(ds, i as int) {
                Some(BatchErrorView::DuplicateKey { index: i as int, key: ds[i as int].id })
            } else {
                problem_from(schema, ds, i + 1)
            },
        }
    }
}

/// The first failure of a batch, if any.
pub open spec fn batch_problem(schema: Seq<FieldSchemaView>, ds: Seq<DocumentView>) -> Option<BatchErrorView> {
    problem_from(schema, ds, 0)
}

/// What `find` gives is what the stored-document map holds.
proof fn lemma_find_is_map_get(entries: Seq<DocumentView>, k: Seq<char>)
    ensures
        find(entries, k) == map_get(index_map(entries), k),
{
}

impl SearchIndex {
    /// Inserts the documents in input order exactly like repeated `insert`,
    /// returning the replaced document for each position.
    pub fn insert_batch(&mut self, documents: Vec<Document>) -> (r: Vec<Option<Document>>)
        requires
            old(self).wf(),
            forall|i: int| 0 <= i < documents@.len() ==> (#[trigger] documents@[i]).wf(),
        ensures
            final(self).wf(),
            index_map(final(self)@) == apply_all(index_map(old(self)@), docs_view(documents@)),
            r@.len() == documents@.len(),
            forall|i: int|
                0 <= i < r@.len() ==> opt_doc(#[trigger] r@[i]) == replaced_at(
                    index_map(old(self)@),
                    docs_view(documents@),
                    i,
                ),
    {
        let ghost dv = docs_view(documents@);
        let ghost m0 = index_map(self@);
        let mut docs = documents;
        let total = docs.len();
        let mut out: Vec<Option<Document>> = Vec::new();
        let mut i: usize = 0;
        proof {
            assert(docs_view(docs@) =~= dv.skip(0));
            assert(dv.take(0) =~= Seq::<DocumentView>::empty());
        }
        while docs.len() > 0
            invariant
                i <= dv.len(),
                dv.len() == total,
                docs_view(docs@) == dv.skip(i as int),
                docs@.len() == dv.len() - i,
                forall|j: int| 0 <= j < docs@.len() ==> (#[trigger] docs@[j]).wf(),
                self.wf(),
                index_map(self@) == apply_all(m0, dv.take(i as int)),
                out@.len() == i,
                forall|j: int|
                    0 <= j < i ==> opt_doc(#[trigger] out@[j]) == replaced_at(m0, dv, j),
            decreases docs@.len(),
        {
            let ghost rest = docs@;
            let d = docs.remove(0);
            let ghost before = self@;
            proof {
                assert(dv.skip(i as int)[0] == dv[i as int]);
                assert(d@ == dv[i as int]);
                assert(d == rest[0]);
                assert(docs_view(docs@) =~= dv.skip(i + 1));
                assert forall|j: int| 0 <= j < docs@.len() implies (#[trigger] docs@[j]).wf() by {
                    assert(docs@[j] == rest[j + 1]);
                }
            }
            let prev = self.insert(d);
            proof {
                lemma_find_is_map_get(before, dv[i as int].id);
                assert(dv.take(i + 1).drop_last() =~= dv.take(i as int));
                assert(dv.take(i + 1).last() == dv[i as int]);
            }
            out.push(prev);
            i = i + 1;
        }
        proof {
            assert(dv.take(i as int) =~= dv);
        }
        out
    }

    /// Validates the whole batch first, then inserts it like
    /// `insert_batch`. The first position whose document fails the schema or
    /// repeats an earlier key of the batch is reported, and then nothing is
    /// stored.
    pub fn insert_batch_with_schema(&mut self, documents: Vec<Document>, schema: &Schema) -> (r:
        Result<Vec<Option<Document>>, BatchError>)
        requires
            old(self).wf(),
            forall|i: int| 0 <= i < documents@.len() ==> (#[trigger] documents@[i]).wf(),
        ensures
            final(self).wf(),
            match r {
                Err(e) => {
                    &&& batch_problem(schema@, docs_view(documents@)) == Some(e@)
                    &&& final(self)@ == old(self)@
                },
                Ok(replaced) => {
                    &&& batch_problem(schema@, docs_view(documents@)) is None
                    &&& index_map(final(self)@) == apply_all(
                        index_map(old(self)@),
                        docs_view(documents@),
                    )
                    &&& replaced@.len() == documents@.len()
                    &&& forall|i: int|
                        0 <= i < replaced@.len() ==> opt_doc(#[trigger] replaced@[i])
                            == replaced_at(index_map(old(self)@), docs_view(documents@), i)
                },
            },
    {
        let ghost dv = docs_view(documents@);
        let mut i: usize = 0;
        while i < documents.len()
            invariant
                i <= documents@.len(),
                dv == docs_view(documents@),
                batch_problem(schema@, dv) == problem_from(schema@, dv, i as nat),
                *self == *old(self),
                old(self).wf(),
            decreases documents@.len() - i,
        {
            let doc = &documents[i];
            proof {
                assert(dv[i as int] == doc@);
            }
            if let Err(e) = schema.validate(doc) {
                return Err(BatchError::Schema { index: i, key: doc.id().into_text(), error: e });
            }
            let k = chars_of(doc.id());
            let mut j: usize = 0;
            while j < i
                invariant
                    j <= i,
                    i < documents@.len(),
                    dv == docs_view(documents@),
                    k@ == dv[i as int].id,
                    doc@ == dv[i as int],
                    forall|l: int| 0 <= l < j ==> #[trigger] dv[l].id != dv[i as int].id,
                    batch_problem(schema@, dv) == problem_from(schema@, dv, i as nat),
                    schema_violation(schema@, dv[i as int]) is None,
                    *self == *old(self),
                    old(self).wf(),
                decreases i - j,
            {
                if same_text(&chars_of(documents[j].id()), &k) {
                    proof {
                        assert(dv[j as int].id == dv[i as int].id);
                        assert(repeats_key(dv, i as int));
                        assert(problem_from(schema@, dv, i as nat) == Some(
                            BatchErrorView::DuplicateKey { index: i as int, key: dv[i as int].id },
                        ));
                    }
                    return Err(BatchError::DuplicateKey { index: i, key: doc.id().into_text() });
                }
                j = j + 1;
            }
            proof {
                assert(!repeats_key(dv, i as int));
            }
            i = i + 1;
        }
        Ok(self.insert_batch(documents))
    }
}

} // verus!
