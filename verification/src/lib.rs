//! A marshal-in-place harness: a host hands over a byte buffer holding UTF-8
//! text together with a logical length, the library decodes the text, builds a
//! transient parse tree, runs a page-specific extraction function over it,
//! serializes the extracted record back into the same buffer, and reports the
//! outcome as a single signed status code.

use vstd::prelude::*;

pub mod dom;
pub mod encode;
pub mod ext;
pub mod extract;
pub mod harness;
pub mod marshal;
pub mod records;
pub mod text;

pub use harness::PageKind;
pub use harness::parseFav;
pub use harness::parseTorrent;
pub use harness::parse_image_limit;
pub use harness::parse_marshal_inplace;

verus! {

/// The extraction function found that the input does not have the expected
/// page shape; the host may recover (for instance by trying another parser).
pub const STATUS_NOT_APPLICABLE: i32 = -1;

/// An unrecoverable fault: the bytes were not decodable as text, the text
/// could not be tokenized into a tree, or the extraction function signalled a
/// hard domain error. Nothing is ever propagated past the boundary; every
/// such fault is folded into this sentinel.
pub const STATUS_FAULT: i32 = -2;

/// The extracted record was serialized, but its encoding does not fit the
/// buffer capacity; the buffer is left untouched rather than truncated.
pub const STATUS_TOO_LARGE: i32 = -3;

} // verus!
