//! Formats JSON5 ("JSON for Humans") documents to a consistent style, keeping
//! every comment.
//!
//! Reading the grammar and laying out the text is the work of the `json5format`
//! crate, which this library reaches through the contracts in [`engine`]. What
//! is decided around those calls is verified here: which texts are documents,
//! which options are accepted, in what order the items of an array stand,
//! which error is reported and in what words, in what order a batch of
//! documents is handled, and what is printed or written for each of them.
//!
//! Where sorting is asked for, each array is looked at by itself. An array
//! that holds primitives only, and no comment among them or behind them, is
//! put in order: `null`, `false`, `true`, then the numbers by their value,
//! then the strings by their bytes. Every other array keeps the order of its
//! source, so that no comment is parted from its value and no container is
//! moved. The order is in [`order`], with the arithmetic on digits of any
//! length in [`natural`]; the sorting is in [`sort`], what it makes of a
//! document in [`tree`], and how a document is brought there in [`arrange`].

pub mod arrange;
pub mod batch;
pub mod document;
pub mod engine;
pub mod failure;
pub mod formatter;
pub mod natural;
pub mod options;
pub mod order;
pub mod sort;
pub mod tree;

pub use batch::{
    add_source, files_given, format_documents, heading, parse_documents, reads_standard_input, run,
    Batch, BatchView, Emission, EmissionView, Source, SourceView,
};
pub use document::{parse, parse_failure, Document, DocumentView};
pub use failure::{Failure, FailureView, Position, PositionView};
pub use formatter::{render, Formatter};
pub use options::{FormatOptions, MAX_INDENT};
pub use tree::{Items, Node, Notes};
