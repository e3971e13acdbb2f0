//! Term accumulation and postings serialization for the segment builder of a full-text
//! index: terms are gathered per field during ingestion, then written out as postings
//! lists in byte order of the terms.
//!
//! - `json_term`: the encoding of schemaless terms as (path, type, value).
//! - `term_order`: the byte order in which terms are written.
//! - `recorder`: what is kept per term and document (presence, or positions).
//! - `postings_writer`: the term map of a field, and renumbering of documents.
//! - `specialized`: a postings writer for one recording strategy.
//! - `json_postings_writer`: the writer of a schemaless field, which routes by value type.
pub mod json_term;
pub mod term_order;
pub mod recorder;
pub mod postings_writer;
pub mod specialized;
pub mod json_postings_writer;
