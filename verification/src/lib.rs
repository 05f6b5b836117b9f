//! In-memory document storage with exact token matching.
//!
//! Tokens are separated by Unicode whitespace and converted to lowercase.
//! Every query token must occur in a document. Results use document-key
//! order. Documents may carry typed fields, validated against a [`Schema`];
//! typed fields can filter, facet and sort the documents that a query
//! selects, and batches of documents can be written in one call.
use vstd::prelude::*;

pub mod batch;
pub mod document;
pub mod facet;
pub mod filter;
pub mod index;
pub mod keyed;
pub mod laws;
pub mod schema;
pub mod sort;
pub mod text;

pub use batch::BatchError;
pub use document::{Document, DocumentError};
pub use facet::{FacetCount, FacetError};
pub use filter::{FieldFilter, FilterError};
pub use index::SearchIndex;
pub use schema::{FieldSchema, FieldType, FieldValue, Schema, SchemaError};
pub use sort::{SortDirection, SortError};
