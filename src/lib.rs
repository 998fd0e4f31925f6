//! A buffered byte reader over any byte source, with a
//! mark / reset protocol for rewinding within a declared read limit.

mod reader;
mod source;
mod laws;

pub use reader::{mark_after_consume, mark_step, read_step, reset_step, BufferedReader, MarkRead, ReaderView, DEFAULT_BUF_SIZE};
pub use source::ByteSource;
pub use laws::{
    lemma_mark_growth_preserves_data, lemma_mark_invalidation, lemma_mark_reset_round_trip,
    lemma_pending_is_stream_tail, lemma_read_growth_preserves_data, lemma_reads_concatenate,
    lemma_mark_within_limit, lemma_slice_read_reproduces,
};
