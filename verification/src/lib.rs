//! Lazy string splitting: a cursor that walks a borrowed source text and
//! yields, on demand, the substrings lying between occurrences of a
//! delimiter.  The delimiter is pluggable: anything implementing
//! [`Delimiter`] can locate "the next occurrence" by byte span, and a
//! single code point as well as a literal substring are supplied out of
//! the box.
//!
//! All contracts are stated over the UTF-8 bytes of the texts involved
//! (`spec_bytes()`), since delimiter spans are byte spans.

mod delimiter;
mod encoding;
mod search;
mod split;

pub use delimiter::Delimiter;
pub use search::find_first;
pub use search::first_match_from;
pub use search::lemma_first_match_from_props;
pub use search::matches_at;
pub use split::join_with;
pub use split::lemma_split_bytes_len;
pub use split::lemma_split_partitions;
pub use split::lemma_split_reconstructs;
pub use split::segment_start;
pub use split::segment_views;
pub use split::split_bytes;
pub use split::until_char;
pub use split::StrSplit;
