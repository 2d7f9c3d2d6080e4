//! An editable-text storage engine: a piece-table text buffer.
//!
//! A document is held as an immutable original buffer plus append-only
//! changed buffers; an ordered sequence of pieces, each referencing a
//! contiguous character range of one buffer, reconstitutes the text.
//! Insertions and deletions splice pieces rather than move text, and every
//! operation carries a contract relating it to the document's character
//! sequence.

mod line_index;
mod text_buffer;

pub use line_index::all_ascii;
pub use line_index::break_ends_from;
pub use line_index::compute_line_starts;
pub use line_index::count_line_breaks;
pub use line_index::ends_at_or_before;
pub use line_index::line_break_count;
pub use line_index::line_content_spec;
pub use line_index::line_of;
pub use line_index::line_starts_spec;
pub use text_buffer::crlf_detected;
pub use text_buffer::deleted;
pub use text_buffer::inserted;
pub use text_buffer::lemma_insert_delete_inverse;
pub use text_buffer::BufferCursor;
pub use text_buffer::BufferError;
pub use text_buffer::DefaultEOL;
pub use text_buffer::Node;
pub use text_buffer::TextBuffer;
pub use text_buffer::TextBufferInfo;
