//! Conversion of delimited index lines into a compressed columnar
//! (Parquet) file.
//!
//! The pipeline has three stages: parsing one line of text into an
//! [`ix::IndexEntry`], grouping parsed entries into bounded columnar
//! batches ([`rows2batches::IndexBatchIter`]), and appending each batch
//! as one row group of a Parquet file ([`wtr::EntriesToParquet`]).
use vstd::prelude::*;

pub mod ix;
pub mod rows2batches;
pub mod wtr;

verus! {

/// Everything that can go wrong in the pipeline, fail-fast: the first
/// error aborts the whole run.
///
/// The first three variants locate a malformed input line; `Read` carries
/// a line that could not be read at all; `Schema` reports a batch that the
/// columnar library rejected as incompatible with the declared schema;
/// `Write` and `Close` report failures of the output encoding or sink.
#[derive(Debug, PartialEq, Eq)]
pub enum IxError {
    /// The line has no delimiter at all, so no article-id field exists.
    MissingArticleId,
    /// The line has only one delimiter, so no title field exists.
    MissingTitle,
    /// The text before the first delimiter is not a decimal `u64`.
    BadByteOffset,
    /// The compression codec name is not one of the supported set.
    BadCodec,
    /// An input line could not be read.
    Read(String),
    /// A batch was structurally incompatible with the schema.
    Schema(String),
    /// Appending a row group failed.
    Write(String),
    /// Finalizing the file's footer failed.
    Close(String),
}

/// The mathematical image of one index entry: the parsed byte offset and
/// the two text fields as character sequences.
pub ghost struct EntryV {
    pub byte_offset: u64,
    pub article_id: Seq<char>,
    pub title: Seq<char>,
}

} // verus!
