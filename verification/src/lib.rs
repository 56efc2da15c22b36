//! A fixed-capacity, double-chunked lookahead buffer.
//!
//! The buffer owns a pull-based byte source and two equal fixed-size chunks
//! that form one logical circular buffer. It serves the source's bytes one at
//! a time, lazily refilling a chunk when the read cursor crosses into it, and
//! it can rewind the cursor by up to one chunk's worth of already consumed
//! bytes, re-serving them without touching the source.

mod buffer;
mod errors;
mod model;
mod source;

pub use buffer::CharBuffer;
pub use errors::BufferError;
pub use model::BufferView;
pub use model::delivered;
pub use model::lemma_delivered_unfold;
pub use model::lemma_non_ascii_byte;
pub use model::lemma_round_trip;
pub use model::lemma_sequential_reads;
pub use model::lemma_steps_unfold;
pub use model::take_byte_outcome;
pub use model::take_char_outcome;
pub use source::ByteSource;
pub use source::SliceSource;
